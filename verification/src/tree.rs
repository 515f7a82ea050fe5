//! Huffman trees, built from tables of codes.

use crate::control::{is_cancelled, Error};
use crate::entropy::{bit_at, bits_value, leaf_from, lemma_bit_at, spec_read_leaf, MAX_DEPTH};
use crate::parse::{checked_size, MAX_ALLOCATION};
use crate::types::{HuffNode, HuffTree, TrueHuffmanElement, NO_LEAF};
use vstd::arithmetic::power2::pow2;
use vstd::prelude::*;

verus! {

/// The longest code.
pub const MAX_CODE: u32 = 27;

/// What one node counts against the allocation limit.
pub const NODE_SIZE: usize = 24;

/// A table entry: the length of a code, the code itself, and its value.
pub type Code = (u32, u32, u32);

/// Bit `k` of a code, counted from the least significant one.
pub open spec fn code_bit(code: u32, k: int) -> int {
    ((code >> k as u32) & 1) as int
}

/// The bits of a code in the order in which they are read.
pub open spec fn code_bits(c: Code) -> Seq<int> {
    Seq::new(c.0 as nat, |i: int| code_bit(c.1, c.0 - 1 - i))
}

/// A code has 1 to 27 bits and no bits beyond them.
pub open spec fn valid_code(c: Code) -> bool {
    1 <= c.0 <= MAX_CODE && c.1 >> c.0 == 0
}

pub open spec fn is_prefix(p: Seq<int>, q: Seq<int>) -> bool {
    p.len() <= q.len() && p == q.take(p.len() as int)
}

/// Whether `later` cannot be added after `earlier`: it would run through the
/// end of `earlier`, or end on the way there.
pub open spec fn overlaps(earlier: Code, later: Code) -> bool {
    ||| earlier.2 != NO_LEAF && is_prefix(code_bits(earlier), code_bits(later))
    ||| later.0 < earlier.0 && is_prefix(code_bits(later), code_bits(earlier))
}

/// Whether code `j` can be added after the ones before it.
pub open spec fn code_fits(codes: Seq<Code>, j: int) -> bool {
    valid_code(codes[j]) && forall|i: int| 0 <= i < j ==> !#[trigger] overlaps(codes[i], codes[j])
}

/// The first error among the first `n` codes.
pub open spec fn codes_error(codes: Seq<Code>, n: nat) -> Option<Error>
    decreases n,
{
    if n == 0 {
        None
    } else {
        match codes_error(codes, (n - 1) as nat) {
            Some(e) => Some(e),
            None => if !valid_code(codes[n - 1]) {
                Some(Error::InvalidData("invalid Huffman code length"))
            } else if !code_fits(codes, n - 1) {
                Some(Error::InvalidData("overlapping Huffman codes"))
            } else {
                None
            },
        }
    }
}

/// The total length of the first `n` codes.
pub open spec fn total_length(codes: Seq<Code>, n: nat) -> nat
    decreases n,
{
    if n == 0 {
        0
    } else {
        total_length(codes, (n - 1) as nat) + codes[n - 1].0 as nat
    }
}

/// What keeps a tree from being built for a table of codes.
pub open spec fn tree_error(codes: Seq<Code>) -> Option<Error> {
    if (1 + total_length(codes, codes.len())) * NODE_SIZE > MAX_ALLOCATION {
        Some(Error::Allocation)
    } else {
        match codes_error(codes, codes.len()) {
            Some(e) => Some(e),
            None => if codes.len() == 0 {
                Some(Error::InvalidData("empty Huffman table"))
            } else {
                None
            },
        }
    }
}

/// The value of the last of the first `n` codes that has these bits.
pub open spec fn leaf_of(codes: Seq<Code>, n: nat, bits: Seq<int>) -> u32
    decreases n,
{
    if n == 0 {
        NO_LEAF
    } else if code_bits(codes[n - 1]) == bits {
        codes[n - 1].2
    } else {
        leaf_of(codes, (n - 1) as nat, bits)
    }
}

/// Whether some of the first `n` codes starts with these bits.
pub open spec fn starts_code(codes: Seq<Code>, n: nat, bits: Seq<int>) -> bool {
    exists|i: int| 0 <= i < n && is_prefix(bits, #[trigger] code_bits(codes[i]))
}

pub open spec fn has_path(paths: Seq<Seq<int>>, p: Seq<int>) -> bool {
    exists|k: int| 0 <= k < paths.len() && #[trigger] paths[k] == p
}

/// The branch of a node leads to the node whose path is one bit longer, and is
/// missing where there is no such node.
pub open spec fn branch_ok(nodes: Seq<HuffNode>, paths: Seq<Seq<int>>, i: int, b: int) -> bool {
    match nodes[i].branch[b] {
        Some(k) => k < paths.len() && paths[k as int] == paths[i].push(b),
        None => !has_path(paths, paths[i].push(b)),
    }
}

/// Every node has a path of its own, the root the empty one, and the branches
/// lead along the paths.
pub open spec fn is_trie(nodes: Seq<HuffNode>, paths: Seq<Seq<int>>) -> bool {
    &&& nodes.len() == paths.len()
    &&& paths.len() >= 1
    &&& paths[0] == Seq::<int>::empty()
    &&& forall|i: int, j: int|
        #![trigger paths[i], paths[j]]
        0 <= i < paths.len() && 0 <= j < paths.len() && paths[i] == paths[j] ==> i == j
    &&& forall|i: int, b: int|
        0 <= i < nodes.len() && 0 <= b < 2 ==> #[trigger] branch_ok(nodes, paths, i, b)
}

/// The paths are the beginnings of the codes, and where one of them is a whole
/// code, its node has that code's value.
pub open spec fn labels(nodes: Seq<HuffNode>, paths: Seq<Seq<int>>, codes: Seq<Code>) -> bool {
    &&& is_trie(nodes, paths)
    &&& forall|k: int|
        0 < k < paths.len() ==> starts_code(codes, codes.len(), #[trigger] paths[k])
    &&& forall|i: int, d: int|
        0 <= i < codes.len() && 0 <= d <= codes[i].0 ==> has_path(
            paths,
            #[trigger] code_bits(codes[i]).take(d),
        )
    &&& forall|k: int|
        0 <= k < nodes.len() ==> #[trigger] nodes[k].leaf == leaf_of(codes, codes.len(), paths[k])
}

/// Whether the nodes are the tree of these codes.
pub open spec fn code_tree(nodes: Seq<HuffNode>, codes: Seq<Code>) -> bool {
    exists|paths: Seq<Seq<int>>| #[trigger] labels(nodes, paths, codes)
}

/// Without an error every code fits.
proof fn lemma_no_error(codes: Seq<Code>, n: nat)
    requires
        n <= codes.len(),
        codes_error(codes, n) is None,
    ensures
        forall|j: int| 0 <= j < n ==> #[trigger] code_fits(codes, j),
    decreases n,
{
    if n > 0 {
        lemma_no_error(codes, (n - 1) as nat);
    }
}

proof fn lemma_error_stays(codes: Seq<Code>, j: nat, n: nat)
    requires
        j <= n,
        codes_error(codes, j) is Some,
    ensures
        codes_error(codes, n) == codes_error(codes, j),
    decreases n - j,
{
    if j < n {
        lemma_error_stays(codes, j, (n - 1) as nat);
    }
}

/// A leaf comes from a code.
proof fn lemma_leaf_source(codes: Seq<Code>, n: nat, bits: Seq<int>) -> (i: int)
    requires
        n <= codes.len(),
        leaf_of(codes, n, bits) != NO_LEAF,
    ensures
        0 <= i < n,
        code_bits(codes[i]) == bits,
        codes[i].2 == leaf_of(codes, n, bits),
    decreases n,
{
    if code_bits(codes[n - 1]) == bits {
        n - 1
    } else {
        lemma_leaf_source(codes, (n - 1) as nat, bits)
    }
}

/// Codes that fit keep their values.
proof fn lemma_leaf_kept(codes: Seq<Code>, n: nat, i: int)
    requires
        0 <= i < n <= codes.len(),
        codes[i].2 != NO_LEAF,
        forall|j: int| 0 <= j < n ==> #[trigger] code_fits(codes, j),
    ensures
        leaf_of(codes, n, code_bits(codes[i])) == codes[i].2,
    decreases n,
{
    if i < n - 1 {
        assert(code_fits(codes, n - 1));
        assert(!overlaps(codes[i], codes[n - 1]));
        if code_bits(codes[n - 1]) == code_bits(codes[i]) {
            let bits = code_bits(codes[i]);
            assert(bits.take(bits.len() as int) =~= bits);
        }
        lemma_leaf_kept(codes, (n - 1) as nat, i);
    }
}

/// The state of the tree while the bits of code `j` are added: `d` of them are
/// there.
spec fn growing(
    nodes: Seq<HuffNode>,
    paths: Seq<Seq<int>>,
    codes: Seq<Code>,
    j: nat,
    d: int,
) -> bool {
    &&& is_trie(nodes, paths)
    &&& forall|k: int|
        0 < k < paths.len() ==> starts_code(codes, j, #[trigger] paths[k]) || (d > 0 && is_prefix(
            paths[k],
            code_bits(codes[j as int]).take(d),
        ))
    &&& forall|i: int, e: int|
        0 <= i < j && 0 <= e <= codes[i].0 ==> has_path(
            paths,
            #[trigger] code_bits(codes[i]).take(e),
        )
    &&& forall|e: int|
        0 <= e <= d ==> has_path(paths, #[trigger] code_bits(codes[j as int]).take(e))
    &&& forall|k: int|
        0 <= k < nodes.len() ==> #[trigger] nodes[k].leaf == leaf_of(codes, j, paths[k])
}

/// A new node, reached by a bit from `node`, keeps the tree a tree.
proof fn lemma_grow(
    nodes: Seq<HuffNode>,
    paths: Seq<Seq<int>>,
    codes: Seq<Code>,
    j: nat,
    d: int,
    node: int,
    bit: int,
    grown: Seq<HuffNode>,
)
    requires
        j < codes.len(),
        growing(nodes, paths, codes, j, d),
        0 <= d < codes[j as int].0,
        0 <= node < nodes.len(),
        paths[node] == code_bits(codes[j as int]).take(d),
        bit == code_bits(codes[j as int])[d],
        0 <= bit < 2,
        nodes[node].branch[bit] is None,
        grown.len() == nodes.len() + 1,
        forall|k: int| 0 <= k < nodes.len() && k != node ==> #[trigger] grown[k] == nodes[k],
        grown[node].leaf == nodes[node].leaf,
        grown[node].branch[bit] == Some(nodes.len() as usize),
        grown[node].branch[1 - bit] == nodes[node].branch[1 - bit],
        nodes.len() <= usize::MAX,
        grown[nodes.len() as int].leaf == NO_LEAF,
        grown[nodes.len() as int].branch[0] is None,
        grown[nodes.len() as int].branch[1] is None,
    ensures
        growing(
            grown,
            paths.push(code_bits(codes[j as int]).take(d + 1)),
            codes,
            j,
            d + 1,
        ),
{
    let bits = code_bits(codes[j as int]);
    let p = bits.take(d + 1);
    let longer = paths.push(p);
    let n = nodes.len() as int;
    assert(p =~= paths[node].push(bit));
    assert(branch_ok(nodes, paths, node, bit));
    assert(!has_path(paths, p));
    assert forall|i: int, k: int|
        #![trigger longer[i], longer[k]]
        0 <= i < longer.len() && 0 <= k < longer.len() && longer[i] == longer[k] implies i
        == k by {
        if i < n && k < n {
            assert(paths[i] == paths[k]);
        } else if i < n {
            assert(paths[i] == p);
        } else if k < n {
            assert(paths[k] == p);
        }
    }
    assert forall|i: int, b: int| 0 <= i < grown.len() && 0 <= b < 2 implies #[trigger] branch_ok(
        grown,
        longer,
        i,
        b,
    ) by {
        if i == n {
            let q = p.push(b);
            assert(!has_path(longer, q)) by {
                if has_path(longer, q) {
                    let k = choose|k: int| 0 <= k < longer.len() && #[trigger] longer[k] == q;
                    if k == n {
                        assert(p.len() == q.len());
                    } else {
                        assert(paths[k] == q);
                        // Its beginning p would have a node already.
                        if starts_code(codes, j, paths[k]) {
                            let m = choose|m: int|
                                0 <= m < j && is_prefix(paths[k], #[trigger] code_bits(codes[m]));
                            let c = code_bits(codes[m]);
                            assert(c.take(d + 1) =~= p) by {
                                assert(q == c.take(q.len() as int));
                                assert forall|x: int| 0 <= x < d + 1 implies c.take(d + 1)[x]
                                    == p[x] by {
                                    assert(q[x] == p[x]);
                                    assert(c.take(q.len() as int)[x] == c[x]);
                                }
                            }
                            assert(has_path(paths, c.take(d + 1)));
                        } else if k > 0 {
                            assert(q.len() <= d);
                        } else {
                            assert(q.len() == 0);
                        }
                    }
                }
            }
        } else {
            assert(branch_ok(nodes, paths, i, b));
            if i == node && b == bit {
                assert(longer[n] == p);
                assert(longer[node] == paths[node]);
            } else {
                assert(grown[i].branch[b] == nodes[i].branch[b]) by {
                    if i == node {
                        assert(b == 1 - bit);
                    }
                }
                match nodes[i].branch[b] {
                    Some(k) => {
                        assert(longer[k as int] == paths[k as int]);
                    },
                    None => {
                        if has_path(longer, paths[i].push(b)) {
                            let k = choose|k: int|
                                0 <= k < longer.len() && #[trigger] longer[k] == paths[i].push(b);
                            if k < n {
                                assert(paths[k] == paths[i].push(b));
                                assert(has_path(paths, paths[i].push(b)));
                            } else {
                                assert(p == paths[i].push(b));
                                assert(paths[node].push(bit) == paths[i].push(b));
                                assert(paths[i].push(b).last() == b);
                                assert(paths[node].push(bit).last() == bit);
                                assert(paths[i].push(b).drop_last() =~= paths[i]);
                                assert(paths[node].push(bit).drop_last() =~= paths[node]);
                                assert(paths[i] == paths[node]);
                            }
                        }
                    },
                }
            }
        }
    }
    assert(longer[0] == paths[0]);
    assert(is_trie(grown, longer));
    assert forall|k: int| 0 < k < longer.len() implies starts_code(codes, j, #[trigger] longer[k])
        || (d + 1 > 0 && is_prefix(longer[k], bits.take(d + 1))) by {
        if k < n {
            assert(longer[k] == paths[k]);
            if !starts_code(codes, j, paths[k]) {
                assert(is_prefix(paths[k], bits.take(d)));
                assert(bits.take(d).take(paths[k].len() as int) =~= bits.take(d + 1).take(
                    paths[k].len() as int,
                ));
            }
        } else {
            assert(p.take(p.len() as int) =~= p);
        }
    }
    assert forall|i: int, e: int| 0 <= i < j && 0 <= e <= codes[i].0 implies has_path(
        longer,
        #[trigger] code_bits(codes[i]).take(e),
    ) by {
        let k = choose|k: int|
            0 <= k < paths.len() && #[trigger] paths[k] == code_bits(codes[i]).take(e);
        assert(has_path(paths, code_bits(codes[i]).take(e)));
        assert(longer[k] == paths[k]);
    }
    assert forall|e: int| 0 <= e <= d + 1 implies has_path(longer, #[trigger] bits.take(e)) by {
        if e <= d {
            assert(has_path(paths, bits.take(e)));
            let k = choose|k: int| 0 <= k < paths.len() && #[trigger] paths[k] == bits.take(e);
            assert(longer[k] == paths[k]);
        } else {
            assert(longer[n] == p);
        }
    }
    assert forall|k: int| 0 <= k < grown.len() implies #[trigger] grown[k].leaf == leaf_of(
        codes,
        j,
        longer[k],
    ) by {
        if k < n {
            assert(nodes[k].leaf == leaf_of(codes, j, paths[k]));
            assert(longer[k] == paths[k]);
        } else if leaf_of(codes, j, p) != NO_LEAF {
            let m = lemma_leaf_source(codes, j, p);
            assert(code_bits(codes[m]).take(codes[m].0 as int) =~= p);
            assert(has_path(paths, code_bits(codes[m]).take(codes[m].0 as int)));
        }
    }
}

/// A branch that is there already leads one bit further.
proof fn lemma_follow(
    nodes: Seq<HuffNode>,
    paths: Seq<Seq<int>>,
    codes: Seq<Code>,
    j: nat,
    d: int,
    node: int,
    bit: int,
)
    requires
        j < codes.len(),
        growing(nodes, paths, codes, j, d),
        0 <= d < codes[j as int].0,
        0 <= node < nodes.len(),
        paths[node] == code_bits(codes[j as int]).take(d),
        bit == code_bits(codes[j as int])[d],
        0 <= bit < 2,
        nodes[node].branch[bit] is Some,
    ensures
        growing(nodes, paths, codes, j, d + 1),
        nodes[node].branch[bit]->0 < nodes.len(),
        paths[nodes[node].branch[bit]->0 as int] == code_bits(codes[j as int]).take(d + 1),
{
    let bits = code_bits(codes[j as int]);
    assert(branch_ok(nodes, paths, node, bit));
    let next = nodes[node].branch[bit]->0 as int;
    assert(bits.take(d + 1) =~= bits.take(d).push(bit));
    assert forall|k: int| 0 < k < paths.len() implies starts_code(codes, j, #[trigger] paths[k])
        || (d + 1 > 0 && is_prefix(paths[k], bits.take(d + 1))) by {
        if !starts_code(codes, j, paths[k]) {
            assert(is_prefix(paths[k], bits.take(d)));
            assert(bits.take(d).take(paths[k].len() as int) =~= bits.take(d + 1).take(
                paths[k].len() as int,
            ));
        }
    }
    assert forall|e: int| 0 <= e <= d + 1 implies has_path(paths, #[trigger] bits.take(e)) by {
        if e > d {
            assert(paths[next] == bits.take(e));
        }
    }
}

/// A value on the way is a code that would be run through.
proof fn lemma_blocked_on_the_way(codes: Seq<Code>, j: nat, d: int)
    requires
        j < codes.len(),
        valid_code(codes[j as int]),
        codes_error(codes, j) is None,
        0 <= d <= codes[j as int].0,
        leaf_of(codes, j, code_bits(codes[j as int]).take(d)) != NO_LEAF,
    ensures
        codes_error(codes, codes.len()) == Some(
            Error::InvalidData("overlapping Huffman codes"),
        ),
{
    let bits = code_bits(codes[j as int]);
    let i = lemma_leaf_source(codes, j, bits.take(d));
    assert(is_prefix(code_bits(codes[i]), bits));
    assert(overlaps(codes[i], codes[j as int]));
    lemma_error_stays(codes, j + 1, codes.len());
}

/// A branch at the end is a code that would be cut short.
proof fn lemma_blocked_at_the_end(
    nodes: Seq<HuffNode>,
    paths: Seq<Seq<int>>,
    codes: Seq<Code>,
    j: nat,
    node: int,
    b: int,
)
    requires
        j < codes.len(),
        valid_code(codes[j as int]),
        codes_error(codes, j) is None,
        growing(nodes, paths, codes, j, codes[j as int].0 as int),
        0 <= node < nodes.len(),
        paths[node] == code_bits(codes[j as int]),
        0 <= b < 2,
        nodes[node].branch[b] is Some,
    ensures
        codes_error(codes, codes.len()) == Some(
            Error::InvalidData("overlapping Huffman codes"),
        ),
{
    let bits = code_bits(codes[j as int]);
    assert(branch_ok(nodes, paths, node, b));
    let k = nodes[node].branch[b]->0 as int;
    assert(paths[k] == bits.push(b));
    assert(paths[k].len() == bits.len() + 1);
    assert(paths[0].len() == 0);
    assert(starts_code(codes, j, paths[k]));
    let m = choose|m: int| 0 <= m < j && is_prefix(paths[k], #[trigger] code_bits(codes[m]));
    let c = code_bits(codes[m]);
    assert(c.take(bits.len() as int) =~= bits) by {
        assert forall|x: int| 0 <= x < bits.len() implies c[x] == bits[x] by {
            assert(bits.push(b)[x] == bits[x]);
            assert(c.take((bits.len() + 1) as int)[x] == c[x]);
        }
    }
    assert(overlaps(codes[m], codes[j as int]));
    lemma_error_stays(codes, j + 1, codes.len());
}

/// A code that met no obstacle fits, and its end gets its value.
proof fn lemma_finish(
    nodes: Seq<HuffNode>,
    paths: Seq<Seq<int>>,
    codes: Seq<Code>,
    j: nat,
    node: int,
    done: Seq<HuffNode>,
)
    requires
        j < codes.len(),
        valid_code(codes[j as int]),
        codes_error(codes, j) is None,
        growing(nodes, paths, codes, j, codes[j as int].0 as int),
        0 <= node < nodes.len(),
        paths[node] == code_bits(codes[j as int]),
        nodes[node].branch[0] is None,
        nodes[node].branch[1] is None,
        forall|e: int|
            0 <= e <= codes[j as int].0 ==> leaf_of(
                codes,
                j,
                #[trigger] code_bits(codes[j as int]).take(e),
            ) == NO_LEAF,
        done == nodes.update(
            node,
            HuffNode { branch: nodes[node].branch, leaf: codes[j as int].2 },
        ),
    ensures
        codes_error(codes, j + 1) is None,
        growing(done, paths, codes, j + 1, 0),
{
    let c = codes[j as int];
    let bits = code_bits(c);
    lemma_no_error(codes, j);
    assert forall|i: int| 0 <= i < j implies !#[trigger] overlaps(codes[i], c) by {
        let other = code_bits(codes[i]);
        if codes[i].2 != NO_LEAF && is_prefix(other, bits) {
            lemma_leaf_kept(codes, j, i);
            assert(leaf_of(codes, j, bits.take(other.len() as int)) == NO_LEAF);
        }
        if c.0 < codes[i].0 && is_prefix(bits, other) {
            let b = other[c.0 as int];
            assert(b == code_bit(codes[i].1, codes[i].0 - 1 - c.0));
            lemma_code_bit(codes[i].1, codes[i].0 - 1 - c.0);
            assert(has_path(paths, other.take(c.0 + 1)));
            assert(other.take(c.0 + 1) =~= bits.push(b)) by {
                assert(bits == other.take(bits.len() as int));
            }
            assert(branch_ok(nodes, paths, node, b));
        }
    }
    assert forall|i: int, b: int| 0 <= i < done.len() && 0 <= b < 2 implies #[trigger] branch_ok(
        done,
        paths,
        i,
        b,
    ) by {
        assert(branch_ok(nodes, paths, i, b));
    }
    assert(is_trie(done, paths));
    assert forall|k: int| 0 < k < paths.len() implies starts_code(
        codes,
        j + 1,
        #[trigger] paths[k],
    ) by {
        if starts_code(codes, j, paths[k]) {
            let m = choose|m: int| 0 <= m < j && is_prefix(paths[k], #[trigger] code_bits(codes[m]));
            assert(is_prefix(paths[k], code_bits(codes[m])));
        } else {
            assert(bits.take(c.0 as int) =~= bits);
            assert(is_prefix(paths[k], code_bits(codes[j as int])));
        }
    }
    assert forall|i: int, e: int| 0 <= i < j + 1 && 0 <= e <= codes[i].0 implies has_path(
        paths,
        #[trigger] code_bits(codes[i]).take(e),
    ) by {}
    assert forall|e: int| 0 <= e <= 0 implies has_path(
        paths,
        #[trigger] code_bits(codes[(j + 1) as int]).take(e),
    ) by {
        assert(code_bits(codes[(j + 1) as int]).take(0) =~= Seq::<int>::empty());
        assert(paths[0] == Seq::<int>::empty());
    }
    assert forall|k: int| 0 <= k < done.len() implies #[trigger] done[k].leaf == leaf_of(
        codes,
        j + 1,
        paths[k],
    ) by {
        assert(nodes[k].leaf == leaf_of(codes, j, paths[k]));
        if k != node {
            assert(paths[k] != paths[node]);
        }
    }
}

/// A bit is 0 or 1.
proof fn lemma_code_bit(code: u32, k: int)
    ensures
        0 <= code_bit(code, k) < 2,
{
    let shift = k as u32;
    let shifted = code >> shift;
    assert(shifted & 1 < 2) by (bit_vector);
}

proof fn lemma_total_length(codes: Seq<Code>, j: nat, n: nat)
    requires
        j <= n,
    ensures
        total_length(codes, j) <= total_length(codes, n),
    decreases n - j,
{
    if j < n {
        lemma_total_length(codes, j, (n - 1) as nat);
    }
}

/// Builds the tree of a table of codes.
pub fn build_tree(codes: &[Code]) -> (r: Result<HuffTree, Error>)
    ensures
        !is_cancelled(r),
        match r {
            Ok(tree) => tree_error(codes@) is None && code_tree(tree.nodes@, codes@),
            Err(e) => tree_error(codes@) == Some(e),
        },
{
    let ghost all = codes@;
    let mut length: usize = 1;
    let mut i: usize = 0;
    while i < codes.len()
        invariant
            i <= codes@.len(),
            all == codes@,
            length == 1 + total_length(all, i as nat),
        decreases codes@.len() - i,
    {
        proof {
            lemma_total_length(all, (i + 1) as nat, all.len());
        }
        match length.checked_add(codes[i].0 as usize) {
            Some(sum) => {
                length = sum;
            },
            None => {
                return Err(Error::Allocation);
            },
        }
        i = i + 1;
    }
    checked_size(length, NODE_SIZE)?;
    let mut nodes: Vec<HuffNode> = Vec::new();
    nodes.push(HuffNode { branch: [None; 2], leaf: NO_LEAF });
    let ghost mut paths: Seq<Seq<int>> = seq![Seq::<int>::empty()];
    let mut j: usize = 0;
    proof {
        assert forall|i: int, b: int|
            0 <= i < nodes@.len() && 0 <= b < 2 implies #[trigger] branch_ok(
            nodes@,
            paths,
            i,
            b,
        ) by {
            assert(nodes@[i].branch[b] is None);
            if has_path(paths, paths[i].push(b)) {
                let k = choose|k: int|
                    0 <= k < paths.len() && #[trigger] paths[k] == paths[i].push(b);
                assert(paths[k].len() == 0);
            }
        }
        assert forall|e: int| 0 <= e <= 0 implies has_path(
            paths,
            #[trigger] code_bits(all[0]).take(e),
        ) by {
            assert(code_bits(all[0]).take(0) =~= Seq::<int>::empty());
            assert(paths[0] == Seq::<int>::empty());
        }
    }
    while j < codes.len()
        invariant
            j <= codes@.len(),
            all == codes@,
            (1 + total_length(all, all.len())) * NODE_SIZE <= MAX_ALLOCATION,
            codes_error(all, j as nat) is None,
            growing(nodes@, paths, all, j as nat, 0),
        decreases codes@.len() - j,
    {
        let (length, code, value): Code = codes[j];
        proof {
            if !valid_code(all[j as int]) {
                lemma_error_stays(all, (j + 1) as nat, all.len());
            }
        }
        if length == 0 || length > MAX_CODE || code >> length != 0 {
            return Err(Error::InvalidData("invalid Huffman code length"));
        }
        let ghost bits = code_bits(all[j as int]);
        let mut node: usize = 0;
        let mut d: u32 = 0;
        assert(bits.take(0) =~= paths[0]);
        while d < length
            invariant
                j < codes@.len(),
                all == codes@,
                all[j as int] == (length, code, value),
                bits == code_bits(all[j as int]),
                valid_code(all[j as int]),
                (1 + total_length(all, all.len())) * NODE_SIZE <= MAX_ALLOCATION,
                codes_error(all, j as nat) is None,
                d <= length,
                growing(nodes@, paths, all, j as nat, d as int),
                node < nodes@.len(),
                paths[node as int] == bits.take(d as int),
                forall|e: int|
                    0 <= e < d ==> leaf_of(all, j as nat, #[trigger] bits.take(e)) == NO_LEAF,
            decreases length - d,
        {
            let here: HuffNode = nodes[node];
            if here.leaf != NO_LEAF {
                proof {
                    lemma_blocked_on_the_way(all, j as nat, d as int);
                }
                return Err(Error::InvalidData("overlapping Huffman codes"));
            }
            let bit: usize = ((code >> (length - 1 - d)) & 1) as usize;
            proof {
                lemma_code_bit(code, length - 1 - d);
                assert(bit == bits[d as int]);
            }
            match here.branch[bit] {
                Some(next) => {
                    proof {
                        lemma_follow(
                            nodes@,
                            paths,
                            all,
                            j as nat,
                            d as int,
                            node as int,
                            bit as int,
                        );
                    }
                    node = next;
                },
                None => {
                    let next: usize = nodes.len();
                    let mut linked: HuffNode = here;
                    linked.branch[bit] = Some(next);
                    let ghost before = nodes@;
                    nodes.set(node, linked);
                    nodes.push(HuffNode { branch: [None; 2], leaf: NO_LEAF });
                    proof {
                        lemma_grow(
                            before,
                            paths,
                            all,
                            j as nat,
                            d as int,
                            node as int,
                            bit as int,
                            nodes@,
                        );
                        paths = paths.push(bits.take(d + 1));
                    }
                    node = next;
                },
            }
            d = d + 1;
        }
        let here: HuffNode = nodes[node];
        assert(bits.take(length as int) =~= bits);
        if here.branch[0].is_some() || here.branch[1].is_some() || here.leaf != NO_LEAF {
            proof {
                if here.leaf != NO_LEAF {
                    lemma_blocked_on_the_way(all, j as nat, length as int);
                } else if here.branch[0] is Some {
                    lemma_blocked_at_the_end(nodes@, paths, all, j as nat, node as int, 0);
                } else {
                    lemma_blocked_at_the_end(nodes@, paths, all, j as nat, node as int, 1);
                }
            }
            return Err(Error::InvalidData("overlapping Huffman codes"));
        }
        let ghost before = nodes@;
        nodes.set(node, HuffNode { branch: here.branch, leaf: value });
        proof {
            lemma_finish(before, paths, all, j as nat, node as int, nodes@);
        }
        j = j + 1;
    }
    if codes.len() == 0 {
        return Err(Error::InvalidData("empty Huffman table"));
    }
    proof {
        assert(labels(nodes@, paths, all)) by {
            assert forall|k: int| 0 < k < paths.len() implies starts_code(
                all,
                all.len(),
                #[trigger] paths[k],
            ) by {}
        }
    }
    Ok(HuffTree { nodes })
}

/// Whether the stream has the bits of a code from bit `pos` on.
pub open spec fn code_at(c: Code, bytes: Seq<u8>, pos: int) -> bool {
    &&& 0 <= pos
    &&& pos + c.0 <= 8 * bytes.len()
    &&& forall|i: int| 0 <= i < c.0 ==> #[trigger] bit_at(bytes, pos + i) == code_bits(c)[i]
}

/// Every code of the table is read back as its value.
pub proof fn law_codes_are_read_back(
    nodes: Seq<HuffNode>,
    codes: Seq<Code>,
    j: int,
    bytes: Seq<u8>,
    pos: int,
)
    requires
        tree_error(codes) is None,
        code_tree(nodes, codes),
        0 <= j < codes.len(),
        codes[j].2 != NO_LEAF,
        code_at(codes[j], bytes, pos),
    ensures
        spec_read_leaf(nodes, bytes, pos) == Ok::<(u32, int), Error>(
            (codes[j].2, pos + codes[j].0),
        ),
{
    let paths = choose|paths: Seq<Seq<int>>| #[trigger] labels(nodes, paths, codes);
    lemma_no_error(codes, codes.len());
    assert(code_fits(codes, j));
    assert(code_bits(codes[j]).take(0) =~= paths[0]);
    lemma_descend(nodes, paths, codes, j, bytes, pos, 0, 0, MAX_DEPTH as nat);
}

/// From the node that `d` bits of a code lead to, the rest of it is read.
proof fn lemma_descend(
    nodes: Seq<HuffNode>,
    paths: Seq<Seq<int>>,
    codes: Seq<Code>,
    j: int,
    bytes: Seq<u8>,
    pos: int,
    node: int,
    d: int,
    depth: nat,
)
    requires
        labels(nodes, paths, codes),
        forall|k: int| 0 <= k < codes.len() ==> #[trigger] code_fits(codes, k),
        0 <= j < codes.len(),
        codes[j].2 != NO_LEAF,
        code_at(codes[j], bytes, pos),
        0 <= node < nodes.len(),
        0 <= d <= codes[j].0,
        paths[node] == code_bits(codes[j]).take(d),
        depth == MAX_DEPTH - d,
    ensures
        leaf_from(nodes, node, bytes, pos + d, depth) == Ok::<(u32, int), Error>(
            (codes[j].2, pos + codes[j].0),
        ),
    decreases codes[j].0 - d,
{
    let bits = code_bits(codes[j]);
    assert(code_fits(codes, j));
    assert(branch_ok(nodes, paths, node, 0));
    assert(branch_ok(nodes, paths, node, 1));
    if d == codes[j].0 {
        assert(bits.take(d) =~= bits);
        lemma_leaf_kept(codes, codes.len(), j);
        assert(nodes[node].leaf == codes[j].2);
        assert forall|b: int| 0 <= b < 2 implies nodes[node].branch[b] is None by {
            assert(branch_ok(nodes, paths, node, b));
            if nodes[node].branch[b] is Some {
                let k = nodes[node].branch[b]->0 as int;
                assert(paths[k] == bits.push(b));
                assert(k != 0);
                assert(starts_code(codes, codes.len(), paths[k]));
                let m = choose|m: int|
                    0 <= m < codes.len() && is_prefix(paths[k], #[trigger] code_bits(codes[m]));
                let c = code_bits(codes[m]);
                assert(c.take(bits.len() as int) =~= bits) by {
                    assert forall|x: int| 0 <= x < bits.len() implies c[x] == bits[x] by {
                        assert(bits.push(b)[x] == bits[x]);
                        assert(c.take((bits.len() + 1) as int)[x] == c[x]);
                    }
                }
                assert(code_fits(codes, m));
                assert(m != j);
                if m < j {
                    assert(overlaps(codes[m], codes[j]));
                } else {
                    assert(overlaps(codes[j], codes[m]));
                }
            }
        }
    } else {
        let b = bits[d];
        lemma_code_bit(codes[j].1, codes[j].0 - 1 - d);
        assert(bit_at(bytes, pos + d) == b);
        assert(has_path(paths, bits.take(d + 1)));
        assert(bits.take(d + 1) =~= bits.take(d).push(b));
        assert(branch_ok(nodes, paths, node, b));
        let next = nodes[node].branch[b]->0 as int;
        lemma_descend(nodes, paths, codes, j, bytes, pos, next, d + 1, (depth - 1) as nat);
    }
}

/// What is read is a code of the table: nothing else is ever decoded.
pub proof fn law_only_codes_are_read(
    nodes: Seq<HuffNode>,
    codes: Seq<Code>,
    bytes: Seq<u8>,
    pos: int,
)
    requires
        tree_error(codes) is None,
        code_tree(nodes, codes),
        pos >= 0,
        spec_read_leaf(nodes, bytes, pos) is Ok,
    ensures
        ({
            let (value, end) = spec_read_leaf(nodes, bytes, pos)->Ok_0;
            exists|j: int|
                0 <= j < codes.len() && #[trigger] code_at(codes[j], bytes, pos) && codes[j].2
                    == value && end == pos + codes[j].0
        }),
{
    let paths = choose|paths: Seq<Seq<int>>| #[trigger] labels(nodes, paths, codes);
    lemma_no_error(codes, codes.len());
    lemma_ascend(nodes, paths, codes, bytes, pos, 0, 0, MAX_DEPTH as nat);
}

proof fn lemma_ascend(
    nodes: Seq<HuffNode>,
    paths: Seq<Seq<int>>,
    codes: Seq<Code>,
    bytes: Seq<u8>,
    pos: int,
    node: int,
    d: int,
    depth: nat,
)
    requires
        labels(nodes, paths, codes),
        forall|k: int| 0 <= k < codes.len() ==> #[trigger] code_fits(codes, k),
        0 <= pos,
        0 <= d,
        d > 0 ==> pos + d <= 8 * bytes.len(),
        0 <= node < nodes.len(),
        paths[node].len() == d,
        forall|i: int| 0 <= i < d ==> #[trigger] paths[node][i] == bit_at(bytes, pos + i),
        leaf_from(nodes, node, bytes, pos + d, depth) is Ok,
    ensures
        ({
            let (value, end) = leaf_from(nodes, node, bytes, pos + d, depth)->Ok_0;
            exists|j: int|
                0 <= j < codes.len() && #[trigger] code_at(codes[j], bytes, pos) && codes[j].2
                    == value && end == pos + codes[j].0
        }),
    decreases depth,
{
    if nodes[node].branch[0] is None && nodes[node].branch[1] is None {
        assert(nodes[node].leaf == leaf_of(codes, codes.len(), paths[node]));
        let j = lemma_leaf_source(codes, codes.len(), paths[node]);
        assert(code_fits(codes, j));
        assert(code_bits(codes[j]).len() == codes[j].0);
        assert forall|i: int| 0 <= i < codes[j].0 implies #[trigger] bit_at(bytes, pos + i)
            == code_bits(codes[j])[i] by {
            assert(paths[node][i] == bit_at(bytes, pos + i));
        }
        assert(code_at(codes[j], bytes, pos));
    } else {
        let b = bit_at(bytes, pos + d);
        crate::entropy::lemma_bit_at(bytes, pos + d);
        assert(branch_ok(nodes, paths, node, b));
        let next = nodes[node].branch[b]->0 as int;
        assert(paths[next] == paths[node].push(b));
        lemma_ascend(nodes, paths, codes, bytes, pos, next, d + 1, (depth - 1) as nat);
    }
}

/// Two trees of the same codes read every stream alike.
pub proof fn law_codes_decide(
    left: Seq<HuffNode>,
    right: Seq<HuffNode>,
    codes: Seq<Code>,
    bytes: Seq<u8>,
    pos: int,
)
    requires
        code_tree(left, codes),
        code_tree(right, codes),
    ensures
        spec_read_leaf(left, bytes, pos) == spec_read_leaf(right, bytes, pos),
{
    let p = choose|p: Seq<Seq<int>>| #[trigger] labels(left, p, codes);
    let q = choose|q: Seq<Seq<int>>| #[trigger] labels(right, q, codes);
    lemma_same_walk(left, p, right, q, codes, 0, 0, bytes, pos, MAX_DEPTH as nat);
}

/// A branch is there in one tree where it is there in the other.
proof fn lemma_branch_of_code(
    nodes: Seq<HuffNode>,
    paths: Seq<Seq<int>>,
    codes: Seq<Code>,
    i: int,
    b: int,
)
    requires
        labels(nodes, paths, codes),
        0 <= i < nodes.len(),
        0 <= b < 2,
    ensures
        nodes[i].branch[b] is Some <==> starts_code(codes, codes.len(), paths[i].push(b)),
        nodes[i].branch[b] is Some ==> nodes[i].branch[b]->0 < nodes.len()
            && paths[nodes[i].branch[b]->0 as int] == paths[i].push(b),
{
    let p = paths[i].push(b);
    assert(branch_ok(nodes, paths, i, b));
    if nodes[i].branch[b] is Some {
        let k = nodes[i].branch[b]->0 as int;
        assert(paths[k] == p);
        assert(k != 0) by {
            assert(p.len() > 0);
        }
        assert(starts_code(codes, codes.len(), paths[k]));
    }
    if starts_code(codes, codes.len(), p) {
        let m = choose|m: int|
            0 <= m < codes.len() && is_prefix(p, #[trigger] code_bits(codes[m]));
        assert(has_path(paths, code_bits(codes[m]).take(p.len() as int)));
    }
}

proof fn lemma_same_walk(
    left: Seq<HuffNode>,
    p: Seq<Seq<int>>,
    right: Seq<HuffNode>,
    q: Seq<Seq<int>>,
    codes: Seq<Code>,
    i: int,
    j: int,
    bytes: Seq<u8>,
    pos: int,
    depth: nat,
)
    requires
        labels(left, p, codes),
        labels(right, q, codes),
        0 <= i < left.len(),
        0 <= j < right.len(),
        p[i] == q[j],
    ensures
        leaf_from(left, i, bytes, pos, depth) == leaf_from(right, j, bytes, pos, depth),
    decreases depth,
{
    if depth > 0 {
        lemma_branch_of_code(left, p, codes, i, 0);
        lemma_branch_of_code(left, p, codes, i, 1);
        lemma_branch_of_code(right, q, codes, j, 0);
        lemma_branch_of_code(right, q, codes, j, 1);
        assert(left[i].leaf == leaf_of(codes, codes.len(), p[i]));
        assert(right[j].leaf == leaf_of(codes, codes.len(), q[j]));
        if pos < 8 * bytes.len() {
            let b = bit_at(bytes, pos);
            crate::entropy::lemma_bit_at(bytes, pos);
            if left[i].branch[b] is Some {
                lemma_same_walk(
                    left,
                    p,
                    right,
                    q,
                    codes,
                    left[i].branch[b]->0 as int,
                    right[j].branch[b]->0 as int,
                    bytes,
                    pos + 1,
                    (depth - 1) as nat,
                );
            }
        }
    }
}

/// The codes of the first `n` entries of a TRUE table: an entry without a code
/// size has none, and the others stand for their place in the table.
pub open spec fn true_codes(table: Seq<TrueHuffmanElement>, n: nat) -> Seq<Code>
    decreases n,
{
    if n == 0 {
        Seq::empty()
    } else {
        let e = table[n - 1];
        let before = true_codes(table, (n - 1) as nat);
        if e.code_size == 0 {
            before
        } else {
            before.push(
                (e.code_size as u32, e.code as u32 >> (8 - e.code_size) as u32, (n - 1) as u32),
            )
        }
    }
}

/// What keeps a tree from being built for a TRUE table.
pub open spec fn true_tree_error(table: Seq<TrueHuffmanElement>) -> Option<Error> {
    if table.len() > 32 {
        Some(Error::InvalidData("TRUE magnitude exceeds 31 bits"))
    } else if exists|i: int| 0 <= i < table.len() && #[trigger] table[i].code_size > 8 {
        Some(Error::InvalidData("TRUE code exceeds one byte"))
    } else {
        tree_error(true_codes(table, table.len()))
    }
}

/// Builds the tree of a TRUE table, whose values are magnitudes in bits.
pub fn true_tree(table: &Vec<TrueHuffmanElement>) -> (r: Result<HuffTree, Error>)
    ensures
        !is_cancelled(r),
        match r {
            Ok(tree) => {
                &&& true_tree_error(table@) is None
                &&& code_tree(tree.nodes@, true_codes(table@, table@.len()))
            },
            Err(e) => true_tree_error(table@) == Some(e),
        },
{
    if table.len() > 32 {
        return Err(Error::InvalidData("TRUE magnitude exceeds 31 bits"));
    }
    let mut codes: Vec<Code> = Vec::new();
    let mut i: usize = 0;
    while i < table.len()
        invariant
            i <= table@.len() <= 32,
            codes@ == true_codes(table@, i as nat),
            forall|k: int| 0 <= k < i ==> #[trigger] table@[k].code_size <= 8,
        decreases table@.len() - i,
    {
        let element: TrueHuffmanElement = table[i];
        let length: u32 = element.code_size as u32;
        if length > 8 {
            return Err(Error::InvalidData("TRUE code exceeds one byte"));
        }
        if length != 0 {
            codes.push((length, element.code as u32 >> (8 - length), i as u32));
        }
        i = i + 1;
    }
    build_tree(codes.as_slice())
}

/// The bits of a number in a stream are the bits of the number.
proof fn lemma_number_bits(bytes: Seq<u8>, pos: int, n: nat, v: u32, i: int)
    requires
        bits_value(bytes, pos, n) == v,
        0 <= i < n <= 32,
    ensures
        bit_at(bytes, pos + i) == code_bit(v, n - 1 - i),
    decreases n,
{
    lemma_bit_at(bytes, pos + n - 1);
    let half = v / 2;
    assert(v & 1 == v % 2 && v >> 1 == half) by (bit_vector)
        requires
            half == v / 2,
    ;
    if i == n - 1 {
        assert(v >> 0u32 == v) by (bit_vector);
    } else {
        lemma_number_bits(bytes, pos, (n - 1) as nat, half, i);
        let k = (n - 2 - i) as u32;
        let above = (n - 1 - i) as u32;
        assert((v >> 1) >> k == v >> above) by (bit_vector)
            requires
                k < 31,
                above == k + 1,
        ;
    }
}

/// A code of the table that stands in the stream as a number of as many bits,
/// the most significant one first, is read as its value.
pub proof fn law_codes_are_numbers(
    nodes: Seq<HuffNode>,
    codes: Seq<Code>,
    j: int,
    bytes: Seq<u8>,
    pos: int,
)
    requires
        tree_error(codes) is None,
        code_tree(nodes, codes),
        0 <= j < codes.len(),
        codes[j].2 != NO_LEAF,
        0 <= pos,
        pos + codes[j].0 <= 8 * bytes.len(),
        bits_value(bytes, pos, codes[j].0 as nat) == codes[j].1,
    ensures
        spec_read_leaf(nodes, bytes, pos) == Ok::<(u32, int), Error>(
            (codes[j].2, pos + codes[j].0),
        ),
{
    let c = codes[j];
    lemma_no_error(codes, codes.len());
    assert(code_fits(codes, j));
    assert forall|i: int| 0 <= i < c.0 implies #[trigger] bit_at(bytes, pos + i) == code_bits(
        c,
    )[i] by {
        lemma_number_bits(bytes, pos, c.0 as nat, c.1, i);
    }
    law_codes_are_read_back(nodes, codes, j, bytes, pos);
}

/// An entry of a TRUE table with a code is among its codes.
proof fn lemma_true_entry(table: Seq<TrueHuffmanElement>, n: nat, i: int) -> (j: int)
    requires
        0 <= i < n <= table.len(),
        table[i].code_size != 0,
    ensures
        0 <= j < true_codes(table, n).len(),
        true_codes(table, n)[j] == (
            table[i].code_size as u32,
            table[i].code as u32 >> (8 - table[i].code_size) as u32,
            i as u32,
        ),
    decreases n,
{
    if i == n - 1 {
        true_codes(table, n).len() - 1
    } else {
        lemma_true_entry(table, (n - 1) as nat, i)
    }
}

/// An entry of a TRUE table stands for its place: its code, which is made up of
/// the most significant bits of the entry, is read as the number of the entry.
pub proof fn law_true_tables_count_their_entries(
    nodes: Seq<HuffNode>,
    table: Seq<TrueHuffmanElement>,
    i: int,
    bytes: Seq<u8>,
    pos: int,
)
    requires
        true_tree_error(table) is None,
        code_tree(nodes, true_codes(table, table.len())),
        0 <= i < table.len(),
        table[i].code_size > 0,
        0 <= pos,
        pos + table[i].code_size <= 8 * bytes.len(),
        bits_value(bytes, pos, table[i].code_size as nat) == table[i].code as int / pow2(
            (8 - table[i].code_size) as nat,
        ) as int,
    ensures
        spec_read_leaf(nodes, bytes, pos) == Ok::<(u32, int), Error>(
            (i as u32, pos + table[i].code_size),
        ),
{
    assert(table[i].code_size <= 8);
    let j = lemma_true_entry(table, table.len(), i);
    vstd::bits::lemma_u32_shr_is_div(table[i].code as u32, (8 - table[i].code_size) as u32);
    law_codes_are_numbers(nodes, true_codes(table, table.len()), j, bytes, pos);
}

/// A number without its lowest bit has its other bits, one place lower.
proof fn lemma_half_bits(u: u32, k: u32)
    requires
        k < 31,
    ensures
        code_bit(u >> 1, k as int) == code_bit(u, k + 1),
        u == 2 * (u >> 1) + (u & 1),
{
    let above = (k + 1) as u32;
    assert((u >> 1) >> k == u >> above) by (bit_vector)
        requires
            k < 31,
            above == k + 1,
    ;
    assert(u == 2 * (u >> 1) + (u & 1)) by (bit_vector);
}

/// Numbers of `n` bits are equal if their bits are.
proof fn lemma_same_bits(u: u32, v: u32, n: nat)
    requires
        n < 32,
        u >> n as u32 == 0,
        v >> n as u32 == 0,
        forall|k: int| 0 <= k < n ==> #[trigger] code_bit(u, k) == code_bit(v, k),
    ensures
        u == v,
    decreases n,
{
    if n == 0 {
        assert(u >> 0u32 == u && v >> 0u32 == v) by (bit_vector);
    } else {
        let (a, b, m, s) = (u >> 1, v >> 1, (n - 1) as u32, n as u32);
        assert((u >> 1) >> m == u >> s && (v >> 1) >> m == v >> s) by (bit_vector)
            requires
                m < 31,
                s == m + 1,
        ;
        assert forall|k: int| 0 <= k < n - 1 implies #[trigger] code_bit(a, k) == code_bit(b, k) by {
            lemma_half_bits(u, k as u32);
            lemma_half_bits(v, k as u32);
            assert(code_bit(u, k + 1) == code_bit(v, k + 1));
        }
        lemma_same_bits(a, b, (n - 1) as nat);
        lemma_half_bits(u, 0);
        lemma_half_bits(v, 0);
        assert(u >> 0u32 == u && v >> 0u32 == v) by (bit_vector);
        assert(code_bit(u, 0) == code_bit(v, 0));
    }
}

/// A code that is the beginning of another one is its highest bits.
proof fn lemma_prefix_number(a: Code, b: Code)
    requires
        valid_code(a),
        valid_code(b),
        a.0 <= b.0,
        is_prefix(code_bits(a), code_bits(b)),
    ensures
        b.1 as int / pow2((b.0 - a.0) as nat) as int == a.1,
{
    let d = (b.0 - a.0) as u32;
    let x = b.1 >> d;
    let (p, q) = (code_bits(a), code_bits(b));
    let (n, len, word) = (a.0, b.0, b.1);
    assert((word >> d) >> n == 0) by (bit_vector)
        requires
            word >> len == 0,
            n + d == len,
            len <= 27,
    ;
    assert forall|k: int| 0 <= k < a.0 implies #[trigger] code_bit(x, k) == code_bit(a.1, k) by {
        let i = a.0 - 1 - k;
        assert(p[i] == q.take(p.len() as int)[i]);
        let j = k as u32;
        let both = (k + d) as u32;
        assert((word >> d) >> j == word >> both) by (bit_vector)
            requires
                both == j + d,
                both < 32,
        ;
    }
    lemma_same_bits(x, a.1, a.0 as nat);
    vstd::bits::lemma_u32_shr_is_div(b.1, d);
}

/// A table of codes has a tree if its codes have 1 to 27 bits and no one is the beginning of
/// another, unless there is none at all or too much of them.
pub proof fn law_codes_that_differ_have_a_tree(codes: Seq<Code>)
    requires
        codes.len() > 0,
        (1 + total_length(codes, codes.len())) * NODE_SIZE <= MAX_ALLOCATION,
        forall|i: int|
            0 <= i < codes.len() ==> 1 <= (#[trigger] codes[i]).0 <= 27 && codes[i].1 < pow2(
                codes[i].0 as nat,
            ),
        forall|i: int, j: int|
            0 <= i < codes.len() && 0 <= j < codes.len() && i != j && #[trigger] codes[i].0
                <= #[trigger] codes[j].0 ==> codes[j].1 as int / pow2(
                (codes[j].0 - codes[i].0) as nat,
            ) as int != codes[i].1,
    ensures
        tree_error(codes) is None,
{
    lemma_codes_fit(codes, codes.len());
}

proof fn lemma_codes_fit(codes: Seq<Code>, n: nat)
    requires
        n <= codes.len(),
        forall|i: int|
            0 <= i < codes.len() ==> 1 <= (#[trigger] codes[i]).0 <= 27 && codes[i].1 < pow2(
                codes[i].0 as nat,
            ),
        forall|i: int, j: int|
            0 <= i < codes.len() && 0 <= j < codes.len() && i != j && #[trigger] codes[i].0
                <= #[trigger] codes[j].0 ==> codes[j].1 as int / pow2(
                (codes[j].0 - codes[i].0) as nat,
            ) as int != codes[i].1,
    ensures
        codes_error(codes, n) is None,
    decreases n,
{
    if n > 0 {
        lemma_codes_fit(codes, (n - 1) as nat);
        let j = n - 1;
        lemma_is_valid(codes[j]);
        assert forall|i: int| 0 <= i < j implies !#[trigger] overlaps(codes[i], codes[j]) by {
            lemma_is_valid(codes[i]);
            let (a, b) = (codes[i], codes[j]);
            if is_prefix(code_bits(a), code_bits(b)) {
                assert(code_bits(a).len() <= code_bits(b).len());
                lemma_prefix_number(a, b);
                assert(codes[i].0 <= codes[j].0);
            }
            if b.0 < a.0 && is_prefix(code_bits(b), code_bits(a)) {
                lemma_prefix_number(b, a);
                assert(codes[j].0 <= codes[i].0);
            }
        }
        assert(code_fits(codes, j));
    }
}

proof fn lemma_is_valid(c: Code)
    requires
        1 <= c.0 <= 27,
        c.1 < pow2(c.0 as nat),
    ensures
        valid_code(c),
{
    vstd::bits::lemma_u32_shr_is_div(c.1, c.0);
    vstd::arithmetic::div_mod::lemma_basic_div(c.1 as int, pow2(c.0 as nat) as int);
}

/// A table in which a code begins with an earlier one that stands for a value has no tree:
/// what follows could not be told apart.
pub proof fn law_codes_that_overlap_have_no_tree(codes: Seq<Code>, i: int, j: int)
    requires
        0 <= i < j < codes.len(),
        codes[i].2 != NO_LEAF,
        codes[i].0 <= codes[j].0,
        codes[j].1 as int / pow2((codes[j].0 - codes[i].0) as nat) as int == codes[i].1,
    ensures
        tree_error(codes) is Some,
{
    if tree_error(codes) is None {
        lemma_no_error(codes, codes.len());
        assert(code_fits(codes, i) && code_fits(codes, j));
        let (a, b) = (codes[i], codes[j]);
        let (p, q) = (code_bits(a), code_bits(b));
        let d = (b.0 - a.0) as u32;
        let word = b.1;
        vstd::bits::lemma_u32_shr_is_div(b.1, d);
        assert(word >> d == a.1);
        assert forall|k: int| 0 <= k < p.len() implies #[trigger] p[k] == q.take(p.len() as int)[k] by {
            let low = (a.0 - 1 - k) as u32;
            let both = (b.0 - 1 - k) as u32;
            assert((word >> d) >> low == word >> both) by (bit_vector)
                requires
                    both == low + d,
                    both < 32,
            ;
        }
        assert(p =~= q.take(p.len() as int));
        assert(overlaps(codes[i], codes[j]));
    }
}

} // verus!
