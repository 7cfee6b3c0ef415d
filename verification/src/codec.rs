//! The Huffman code of field path operations: building the tree, its
//! eight-bit decode table, and reading one operation.
use vstd::prelude::*;
use vstd::arithmetic::power2::*;
use vstd::arithmetic::div_mod::*;
use crate::bits::{bits_value, lemma_bits_value_bound, lemma_bits_value_concat, lemma_bits_value_one, window, BitCursor};
use crate::reader::SliceReader;

verus! {

/// A Huffman tree over field path operations. Leaves carry an operation's
/// number; every tree carries its weight and a value that orders equal
/// weights.
#[derive(Debug)]
pub enum FieldPathTree {
    Leaf { weight: u32, value: u32 },
    Node { weight: u32, value: u32, left: Box<FieldPathTree>, right: Box<FieldPathTree> },
}

impl FieldPathTree {
    /// The tree's weight.
    pub open spec fn weight_of(self) -> u32 {
        match self {
            FieldPathTree::Leaf { weight, .. } => weight,
            FieldPathTree::Node { weight, .. } => weight,
        }
    }

    /// The tree's value.
    pub open spec fn value_of(self) -> u32 {
        match self {
            FieldPathTree::Leaf { value, .. } => value,
            FieldPathTree::Node { value, .. } => value,
        }
    }

    /// The tree's weight.
    pub fn weight(&self) -> (w: u32)
        ensures
            w == self.weight_of(),
    {
        match self {
            FieldPathTree::Leaf { weight, .. } => *weight,
            FieldPathTree::Node { weight, .. } => *weight,
        }
    }

    /// The tree's value.
    pub fn value(&self) -> (v: u32)
        ensures
            v == self.value_of(),
    {
        match self {
            FieldPathTree::Leaf { value, .. } => *value,
            FieldPathTree::Node { value, .. } => *value,
        }
    }

    /// The subtree reached by a zero bit.
    pub fn left(&self) -> (t: &FieldPathTree)
        requires
            *self is Node,
        ensures
            *t == *self->left,
    {
        match self {
            FieldPathTree::Node { left, .. } => left,
            FieldPathTree::Leaf { .. } => {
                proof {
                    assert(false);
                }
                self
            },
        }
    }

    /// The subtree reached by a one bit.
    pub fn right(&self) -> (t: &FieldPathTree)
        requires
            *self is Node,
        ensures
            *t == *self->right,
    {
        match self {
            FieldPathTree::Node { right, .. } => right,
            FieldPathTree::Leaf { .. } => {
                proof {
                    assert(false);
                }
                self
            },
        }
    }
}

/// Whether the queue gives up tree `a` before tree `b`: the lighter one
/// first, and of two equally heavy ones the one with the greater value.
pub open spec fn pops_before(a: FieldPathTree, b: FieldPathTree) -> bool {
    a.weight_of() < b.weight_of() || (a.weight_of() == b.weight_of() && a.value_of() > b.value_of())
}

/// Tree `i` is the one the queue gives up first.
pub open spec fn is_first(s: Seq<FieldPathTree>, i: int) -> bool {
    &&& 0 <= i < s.len()
    &&& forall|j: int| 0 <= j < s.len() && j != i ==> !pops_before(#[trigger] s[j], s[i])
}

/// The index of the tree the queue gives up first.
pub open spec fn first_of(s: Seq<FieldPathTree>) -> int {
    choose|i: int| is_first(s, i)
}

/// The trees' values are distinct and below `next`.
pub open spec fn values_below(s: Seq<FieldPathTree>, next: int) -> bool {
    &&& forall|i: int| 0 <= i < s.len() ==> (#[trigger] s[i]).value_of() < next
    &&& forall|i: int, j: int| 0 <= i < s.len() && 0 <= j < s.len() && i != j ==> s[i].value_of() != s[j].value_of()
}

/// The sum of the trees' weights.
pub open spec fn total_weight(s: Seq<FieldPathTree>) -> int
    decreases s.len(),
{
    if s.len() == 0 {
        0
    } else {
        total_weight(s.drop_last()) + s.last().weight_of()
    }
}

/// The tree that merging repeatedly the two trees the queue gives up first
/// builds, numbering new nodes from `next`.
pub open spec fn huffman(forest: Seq<FieldPathTree>, next: u32) -> FieldPathTree
    decreases forest.len(),
{
    let i = first_of(forest);
    let rest = forest.remove(i);
    let j = first_of(rest);
    if forest.len() <= 1 || !is_first(forest, i) || !is_first(rest, j) {
        forest[0]
    } else {
        let a = forest[i];
        let b = rest[j];
        let node = FieldPathTree::Node {
            weight: (a.weight_of() + b.weight_of()) as u32,
            value: next,
            left: Box::new(a),
            right: Box::new(b),
        };
        huffman(rest.remove(j).push(node), (next + 1) as u32)
    }
}

/// The weight a leaf gets for an operation's weight: zero counts as one.
pub open spec fn leaf_weight(w: u32) -> u32 {
    if w == 0 {
        1
    } else {
        w
    }
}

/// One leaf per operation, numbered by position.
pub open spec fn leaves(weights: Seq<u32>) -> Seq<FieldPathTree> {
    Seq::new(weights.len(), |i: int| FieldPathTree::Leaf { weight: leaf_weight(weights[i]), value: i as u32 })
}

/// Of two trees each first for the queue, with distinct values, both are
/// the same.
pub proof fn lemma_first_unique(s: Seq<FieldPathTree>, next: int, i: int, k: int)
    requires
        values_below(s, next),
        is_first(s, i),
        is_first(s, k),
    ensures
        i == k,
{
    if i != k {
        assert(!pops_before(s[k], s[i]));
        assert(!pops_before(s[i], s[k]));
        assert(s[i].value_of() != s[k].value_of());
    }
}

/// Removing a tree takes its weight from the total.
pub proof fn lemma_total_weight_remove(s: Seq<FieldPathTree>, i: int)
    requires
        0 <= i < s.len(),
    ensures
        total_weight(s.remove(i)) == total_weight(s) - s[i].weight_of(),
    decreases s.len(),
{
    if i == s.len() - 1 {
        assert(s.remove(i) =~= s.drop_last());
    } else {
        lemma_total_weight_remove(s.drop_last(), i);
        assert(s.remove(i).drop_last() =~= s.drop_last().remove(i));
        assert(s.remove(i).last() == s.last());
    }
}

/// Every weight is at most the total.
pub proof fn lemma_total_weight_bound(s: Seq<FieldPathTree>, i: int)
    requires
        0 <= i < s.len(),
    ensures
        s[i].weight_of() <= total_weight(s),
        total_weight(s) >= 0,
    decreases s.len(),
{
    lemma_total_weight_nonneg(s);
    if i < s.len() - 1 {
        lemma_total_weight_bound(s.drop_last(), i);
    } else {
        lemma_total_weight_nonneg(s.drop_last());
    }
}

pub proof fn lemma_total_weight_nonneg(s: Seq<FieldPathTree>)
    ensures
        total_weight(s) >= 0,
    decreases s.len(),
{
    if s.len() > 0 {
        lemma_total_weight_nonneg(s.drop_last());
    }
}

/// Finds the tree the queue gives up first.
fn find_first(trees: &Vec<FieldPathTree>, Ghost(next): Ghost<int>) -> (i: usize)
    requires
        trees@.len() > 0,
        values_below(trees@, next),
    ensures
        is_first(trees@, i as int),
        i as int == first_of(trees@),
{
    let mut best: usize = 0;
    let mut k: usize = 1;
    while k < trees.len()
        invariant
            0 < trees@.len(),
            best < k <= trees@.len(),
            values_below(trees@, next),
            forall|j: int| 0 <= j < k && j != best ==> !pops_before(#[trigger] trees@[j], trees@[best as int]),
        decreases trees.len() - k,
    {
        let wk = trees[k].weight();
        let wb = trees[best].weight();
        let vk = trees[k].value();
        let vb = trees[best].value();
        if wk < wb || (wk == wb && vk > vb) {
            proof {
                assert forall|j: int| 0 <= j < k + 1 && j != k implies !pops_before(
                    #[trigger] trees@[j],
                    trees@[k as int],
                ) by {
                    if j != best {
                        assert(!pops_before(trees@[j], trees@[best as int]));
                    }
                    assert(trees@[j].value_of() != trees@[k as int].value_of());
                }
            }
            best = k;
        } else {
            proof {
                assert(trees@[k as int].value_of() != trees@[best as int].value_of());
            }
        }
        k = k + 1;
    }
    proof {
        assert(is_first(trees@, best as int));
        lemma_first_unique(trees@, next, best as int, first_of(trees@));
    }
    best
}

impl FieldPathTree {
    /// Builds the Huffman tree of operations with the given weights, zero
    /// weights counted as one: the two trees that a priority queue gives
    /// up first, the lightest, are merged under a new node numbered after
    /// the operations, until one tree is left.
    #[verifier::spinoff_prover]
    pub fn from_weights(weights: &[u32]) -> (t: FieldPathTree)
        requires
            2 <= weights@.len(),
            2 * weights@.len() <= u32::MAX,
            total_weight(leaves(weights@)) <= u32::MAX,
        ensures
            t == huffman(leaves(weights@), weights@.len() as u32),
            t is Node,
    {
        let n = weights.len();
        let mut trees: Vec<FieldPathTree> = Vec::new();
        let mut i: usize = 0;
        while i < n
            invariant
                n == weights@.len(),
                i <= n,
                trees@ == leaves(weights@).take(i as int),
            decreases n - i,
        {
            let w = if weights[i] == 0 { 1 } else { weights[i] };
            trees.push(FieldPathTree::Leaf { weight: w, value: i as u32 });
            proof {
                assert(trees@ =~= leaves(weights@).take(i + 1));
            }
            i = i + 1;
        }
        proof {
            assert(trees@ =~= leaves(weights@));
        }
        let ghost start = trees@;
        let mut next: u32 = n as u32;
        while trees.len() > 1
            invariant
                n == weights@.len(),
                2 * n <= u32::MAX,
                start == leaves(weights@),
                1 <= trees@.len(),
                trees@.len() + next == 2 * n,
                values_below(trees@, next as int),
                total_weight(trees@) == total_weight(start),
                total_weight(start) <= u32::MAX,
                huffman(start, n as u32) == huffman(trees@, next),
                trees@.len() < n ==> trees@[trees@.len() - 1] is Node,
            decreases trees.len(),
        {
            let ghost before = trees@;
            let ia = find_first(&trees, Ghost(next as int));
            let a = trees.remove(ia);
            proof {
                lemma_total_weight_remove(before, ia as int);
                lemma_total_weight_bound(before, ia as int);
                assert(values_below(trees@, next as int)) by {
                    assert forall|x: int| 0 <= x < trees@.len() implies (#[trigger] trees@[x]).value_of()
                        < next by {
                        if x < ia {
                            assert(trees@[x] == before[x]);
                        } else {
                            assert(trees@[x] == before[x + 1]);
                        }
                    }
                    assert forall|x: int, y: int|
                        0 <= x < trees@.len() && 0 <= y < trees@.len() && x != y implies trees@[x].value_of()
                        != trees@[y].value_of() by {
                        let bx = if x < ia { x } else { x + 1 };
                        let by_ = if y < ia { y } else { y + 1 };
                        assert(trees@[x] == before[bx]);
                        assert(trees@[y] == before[by_]);
                    }
                }
            }
            let ghost middle = trees@;
            let ib = find_first(&trees, Ghost(next as int));
            let b = trees.remove(ib);
            proof {
                lemma_total_weight_remove(middle, ib as int);
                lemma_total_weight_bound(middle, ib as int);
                lemma_total_weight_nonneg(trees@);
            }
            let weight = a.weight() + b.weight();
            let node = FieldPathTree::Node { weight, value: next, left: Box::new(a), right: Box::new(b) };
            let ghost after_removal = trees@;
            trees.push(node);
            proof {
                assert(trees@.drop_last() =~= after_removal);
                assert(values_below(trees@, next + 1)) by {
                    assert forall|x: int| 0 <= x < trees@.len() implies (#[trigger] trees@[x]).value_of()
                        < next + 1 by {
                        if x < after_removal.len() {
                            assert(trees@[x] == after_removal[x]);
                            let mx = if x < ib { x } else { x + 1 };
                            assert(after_removal[x] == middle[mx]);
                        }
                    }
                    assert forall|x: int, y: int|
                        0 <= x < trees@.len() && 0 <= y < trees@.len() && x != y implies trees@[x].value_of()
                        != trees@[y].value_of() by {
                        if x < after_removal.len() {
                            let mx = if x < ib { x } else { x + 1 };
                            assert(after_removal[x] == middle[mx]);
                        }
                        if y < after_removal.len() {
                            let my = if y < ib { y } else { y + 1 };
                            assert(after_removal[y] == middle[my]);
                        }
                    }
                }
            }
            next = next + 1;
        }
        proof {
            assert(huffman(trees@, next) == trees@[0]);
        }
        trees.remove(0)
    }
}

/// Number of bits the decode table looks up at once.
pub const DECODE_TABLE_BITS: u32 = 8;

/// Number of entries of the decode table.
pub const DECODE_TABLE_LEN: usize = 256;

/// A decode table entry: the operation whose code makes up the low
/// `bit_len` bits of the entry's index.
#[derive(Clone, Copy, Debug)]
pub struct DecodeEntry {
    pub value: u32,
    pub bit_len: u8,
}

/// Bit `d` of `b`.
pub open spec fn bit_of(b: int, d: nat) -> bool {
    (b / pow2(d) as int) % 2 == 1
}

/// The leaf that the bits of `b` lead to from depth `depth` of tree `t`,
/// with the depth where it is found, when that is at most eight.
pub open spec fn walk(t: FieldPathTree, b: int, depth: nat) -> Option<(u32, nat)>
    decreases t,
{
    match t {
        FieldPathTree::Leaf { value, .. } => if depth <= 8 {
            Some((value, depth))
        } else {
            None
        },
        FieldPathTree::Node { left, right, .. } => if depth >= 8 {
            None
        } else if bit_of(b, depth) {
            walk(*right, b, depth + 1)
        } else {
            walk(*left, b, depth + 1)
        },
    }
}

/// The decode table entry for the leaf that `b` leads to from depth
/// `depth` of tree `t`.
pub open spec fn entry_at(t: FieldPathTree, b: int, depth: nat) -> Option<DecodeEntry> {
    match walk(t, b, depth) {
        Some((v, l)) => Some(DecodeEntry { value: v, bit_len: l as u8 }),
        None => None,
    }
}

/// What the decode table of tree `t` holds at index `b`.
pub open spec fn table_entry(t: FieldPathTree, b: int) -> Option<DecodeEntry> {
    entry_at(t, b, 0)
}

/// The operation read by walking tree `t` one bit at a time from cursor
/// `c`, a one bit leading right, and the cursor after it.
pub open spec fn decode_op(t: FieldPathTree, c: BitCursor) -> (u32, BitCursor)
    decreases t,
{
    match t {
        FieldPathTree::Leaf { value, .. } => (value, c),
        FieldPathTree::Node { left, right, .. } => if c.peek(1) == 1 {
            decode_op(*right, c.advance(1))
        } else {
            decode_op(*left, c.advance(1))
        },
    }
}

/// `2^n` for `n` up to eight.
fn pow2_small(n: u8) -> (p: u64)
    requires
        n <= 8,
    ensures
        p == pow2(n as nat),
        p <= 256,
{
    let mut p: u64 = 1;
    let mut k: u8 = 0;
    proof {
        lemma2_to64();
    }
    while k < n
        invariant
            k <= n <= 8,
            p == pow2(k as nat),
            p <= pow2(k as nat),
        decreases n - k,
    {
        proof {
            lemma_pow2_unfold((k + 1) as nat);
            lemma2_to64();
            lemma_pow2_strictly_increases(k as nat, 8);
        }
        p = p * 2;
        k = k + 1;
    }
    proof {
        if n < 8 {
            lemma_pow2_strictly_increases(n as nat, 8);
        }
    }
    p
}

/// Splitting `b` modulo `2p` by bit `d`, where `p = 2^d`.
proof fn lemma_mod_next_bit(b: int, d: nat)
    requires
        b >= 0,
    ensures
        b % pow2(d + 1) as int == b % pow2(d) as int + if bit_of(b, d) { pow2(d) as int } else { 0 },
        (b % pow2(d + 1) as int) % pow2(d) as int == b % pow2(d) as int,
{
    let p = pow2(d) as int;
    lemma_pow2_pos(d);
    lemma_pow2_unfold(d + 1);
    lemma_mod_breakdown(b, p, 2);
    let q = (b / p) % 2;
    assert(q == 0 || q == 1) by {
        lemma_mod_pos_bound(b / p, 2);
    }
    lemma_mod_pos_bound(b, p);
    let r = b % (p * 2);
    assert(r == p * q + b % p);
    lemma_fundamental_div_mod(r, p);
    if q == 0 {
        lemma_small_mod((b % p) as nat, p as nat);
    } else {
        lemma_mod_add_multiples_vanish(b % p, p);
        lemma_small_mod((b % p) as nat, p as nat);
    }
}

impl FieldPathTree {
    /// Writes this subtree's leaves into the decode table: a leaf at depth
    /// `bit_len` at most eight, with code `code`, fills every index whose
    /// low `bit_len` bits are `code`.
    #[verifier::spinoff_prover]
    fn fill_decode_table(&self, table: &mut Vec<Option<DecodeEntry>>, code: u64, bit_len: u8)
        requires
            old(table)@.len() == DECODE_TABLE_LEN,
            bit_len <= 8,
            code < pow2(bit_len as nat),
        ensures
            final(table)@.len() == DECODE_TABLE_LEN,
            forall|b: int|
                0 <= b < DECODE_TABLE_LEN ==> #[trigger] final(table)@[b] == if b % pow2(bit_len as nat) as int
                    == code && entry_at(*self, b, bit_len as nat) is Some {
                    entry_at(*self, b, bit_len as nat)
                } else {
                    old(table)@[b]
                },
        decreases self,
    {
        let p = pow2_small(bit_len);
        match self {
            FieldPathTree::Leaf { value, .. } => {
                let entry = DecodeEntry { value: *value, bit_len };
                let ghost start = table@;
                let mut bits: usize = 0;
                while bits < DECODE_TABLE_LEN
                    invariant
                        table@.len() == DECODE_TABLE_LEN,
                        start.len() == DECODE_TABLE_LEN,
                        bits <= DECODE_TABLE_LEN,
                        p == pow2(bit_len as nat),
                        p > 0,
                        forall|b: int|
                            0 <= b < DECODE_TABLE_LEN ==> #[trigger] table@[b] == if b < bits && b % p as int == code {
                                Some(entry)
                            } else {
                                start[b]
                            },
                    decreases DECODE_TABLE_LEN - bits,
                {
                    if (bits as u64) % p == code {
                        table.set(bits, Some(entry));
                    }
                    bits = bits + 1;
                }
            },
            FieldPathTree::Node { left, right, .. } => {
                if bit_len >= 8 {
                    return;
                }
                let ghost start = table@;
                proof {
                    lemma_pow2_unfold((bit_len + 1) as nat);
                }
                left.fill_decode_table(table, code, bit_len + 1);
                let ghost middle = table@;
                right.fill_decode_table(table, code + p, bit_len + 1);
                proof {
                    assert forall|b: int| 0 <= b < DECODE_TABLE_LEN implies #[trigger] table@[b] == if b % pow2(
                        bit_len as nat,
                    ) as int == code && entry_at(*self, b, bit_len as nat) is Some {
                        entry_at(*self, b, bit_len as nat)
                    } else {
                        start[b]
                    } by {
                        lemma_mod_next_bit(b, bit_len as nat);
                        assert(table@[b] == middle[b] || b % pow2((bit_len + 1) as nat) as int == code + p);
                    }
                }
            },
        }
    }

    /// The eight-bit decode table of this tree.
    pub fn decode_table(&self) -> (table: Vec<Option<DecodeEntry>>)
        ensures
            table@.len() == DECODE_TABLE_LEN,
            forall|b: int| 0 <= b < DECODE_TABLE_LEN ==> #[trigger] table@[b] == table_entry(*self, b),
    {
        let mut table: Vec<Option<DecodeEntry>> = Vec::new();
        let mut i: usize = 0;
        while i < DECODE_TABLE_LEN
            invariant
                i <= DECODE_TABLE_LEN,
                table@.len() == i,
                forall|b: int| 0 <= b < i ==> #[trigger] table@[b] == None::<DecodeEntry>,
            decreases DECODE_TABLE_LEN - i,
        {
            table.push(None);
            i = i + 1;
        }
        proof {
            lemma2_to64();
        }
        self.fill_decode_table(&mut table, 0, 0);
        proof {
            assert forall|b: int| 0 <= b < DECODE_TABLE_LEN implies #[trigger] table@[b] == table_entry(*self, b) by {
                assert(b % 1 == 0);
            }
        }
        table
    }
}

/// Bit `k` of a number read from bits, lowest first, is bit `k` read.
#[verifier::spinoff_prover]
pub proof fn lemma_bits_value_bit(w: Seq<bool>, k: nat)
    requires
        k < w.len(),
    ensures
        bit_of(bits_value(w) as int, k) == w[k as int],
    decreases w.len(),
{
    let l = (w.len() - 1) as nat;
    let w1 = w.drop_last();
    let bv1 = bits_value(w1) as int;
    let x: int = if w.last() { 1 } else { 0 };
    let bv = bits_value(w) as int;
    lemma_bits_value_bound(w1);
    assert(bv == bv1 + x * pow2(l));
    let q = pow2(k) as int;
    lemma_pow2_pos(k);
    if k == l {
        lemma_fundamental_div_mod_converse(bv, q, x, bv1);
    } else {
        lemma_bits_value_bit(w1, k);
        lemma_pow2_adds(k, (l - k) as nat);
        lemma_pow2_unfold((l - k) as nat);
        let h = pow2((l - k - 1) as nat) as int;
        lemma_pow2_pos((l - k - 1) as nat);
        assert(pow2(l) as int == q * (2 * h));
        lemma_fundamental_div_mod(bv1, q);
        lemma_mod_pos_bound(bv1, q);
        let d1 = bv1 / q;
        assert(bv == (d1 + 2 * (x * h)) * q + bv1 % q) by (nonlinear_arith)
            requires
                bv == bv1 + x * pow2(l),
                pow2(l) as int == q * (2 * h),
                bv1 == q * d1 + bv1 % q,
        ;
        lemma_fundamental_div_mod_converse(bv, q, d1 + 2 * (x * h), bv1 % q);
        lemma_mod_multiples_vanish(x * h, d1, 2);
    }
}

/// Walking the tree along the bits of an eight-bit lookahead `b` reads
/// the same operation as walking it along the stream.
proof fn lemma_walk_decodes(t: FieldPathTree, c0: BitCursor, b: int, d: nat, c: BitCursor)
    requires
        c0.wf(),
        c0.pos + 8 <= c0.bits.len(),
        b == c0.peek(8),
        d <= 8,
        c.bits == c0.bits,
        c.pos == c0.pos + d,
        c.overrun == c0.overrun,
        walk(t, b, d) is Some,
    ensures
        walk(t, b, d) matches Some((v, l)) && decode_op(t, c) == (v, c0.advance(l)),
    decreases t,
{
    match t {
        FieldPathTree::Leaf { .. } => {},
        FieldPathTree::Node { left, right, .. } => {
            lemma_bits_value_bit(window(c0.bits, c0.pos, 8), d);
            lemma_bits_value_one(window(c.bits, c.pos, 1));
            if bit_of(b, d) {
                lemma_walk_decodes(*right, c0, b, d + 1, c.advance(1));
            } else {
                lemma_walk_decodes(*left, c0, b, d + 1, c.advance(1));
            }
        },
    }
}

/// Reading an operation through the decode table gives what walking the
/// tree one bit at a time gives, whenever eight bits are left and the
/// table has an entry for them.
pub proof fn table_agrees_with_tree(t: FieldPathTree, c: BitCursor)
    requires
        c.wf(),
        c.pos + 8 <= c.bits.len(),
        table_entry(t, c.peek(8) as int) is Some,
    ensures
        table_entry(t, c.peek(8) as int) matches Some(e) && decode_op(t, c) == (e.value, c.advance(e.bit_len as nat)),
{
    lemma_walk_decodes(t, c, c.peek(8) as int, 0, c);
    let (v, l) = walk(t, c.peek(8) as int, 0)->0;
    lemma_walk_bound(t, c.peek(8) as int, 0);
}

/// A walk ends at most eight bits deep.
proof fn lemma_walk_bound(t: FieldPathTree, b: int, d: nat)
    ensures
        walk(t, b, d) matches Some((_, l)) ==> d <= l <= 8,
    decreases t,
{
    match t {
        FieldPathTree::Leaf { .. } => {},
        FieldPathTree::Node { left, right, .. } => {
            lemma_walk_bound(*left, b, d + 1);
            lemma_walk_bound(*right, b, d + 1);
        },
    }
}

/// Decodes field path operations: a Huffman tree and its eight-bit decode
/// table.
pub struct FieldPathCodec {
    tree: FieldPathTree,
    decode_table: Vec<Option<DecodeEntry>>,
}

impl View for FieldPathCodec {
    type V = FieldPathTree;

    closed spec fn view(&self) -> FieldPathTree {
        self.tree
    }
}

impl FieldPathCodec {
    /// The tree has at least two leaves and the table is its decode table.
    pub closed spec fn wf(&self) -> bool {
        &&& self.tree is Node
        &&& self.decode_table@.len() == DECODE_TABLE_LEN
        &&& forall|b: int| 0 <= b < DECODE_TABLE_LEN ==> #[trigger] self.decode_table@[b] == table_entry(self.tree, b)
    }

    /// The codec of operations with the given weights.
    pub fn from_weights(weights: &[u32]) -> (c: Self)
        requires
            2 <= weights@.len(),
            2 * weights@.len() <= u32::MAX,
            total_weight(leaves(weights@)) <= u32::MAX,
        ensures
            c.wf(),
            c@ == huffman(leaves(weights@), weights@.len() as u32),
    {
        let tree = FieldPathTree::from_weights(weights);
        let decode_table = tree.decode_table();
        FieldPathCodec { tree, decode_table }
    }

    /// Reads one operation: by its decode table when eight bits are left
    /// and the code is at most eight bits long, otherwise by walking the
    /// tree one bit at a time.
    pub fn read_op(&self, reader: &mut SliceReader) -> (v: u32)
        requires
            self.wf(),
            old(reader).wf(),
        ensures
            final(reader).wf(),
            final(reader).source() == old(reader).source(),
            (v, final(reader)@) == decode_op(self@, old(reader)@),
    {
        reader.refill();
        proof {
            reader.lemma_wf();
        }
        if reader.remaining_bits() >= 8 {
            let bits = reader.peek_bits(8) as usize;
            proof {
                lemma_bits_value_bound(window(reader@.bits, reader@.pos, 8));
                lemma2_to64();
            }
            match self.decode_table[bits] {
                Some(entry) => {
                    proof {
                        table_agrees_with_tree(self.tree, reader@);
                    }
                    reader.skip_bits(entry.bit_len as u32);
                    return entry.value;
                },
                None => {},
            }
        }
        let mut node = &self.tree;
        loop
            invariant
                reader.wf(),
                reader.source() == old(reader).source(),
                *node is Node,
                decode_op(self.tree, old(reader)@) == decode_op(*node, reader@),
            decreases *node,
        {
            proof {
                lemma_bits_value_one(window(reader@.bits, reader@.pos, 1));
            }
            let ghost before = reader@;
            let bit = reader.read_bool();
            let next = if bit {
                node.right()
            } else {
                node.left()
            };
            proof {
                assert(decode_op(*node, before) == decode_op(*next, reader@));
            }
            match next {
                FieldPathTree::Leaf { value, .. } => {
                    proof {
                        assert(decode_op(*next, reader@) == (*value, reader@));
                    }
                    return *value;
                },
                FieldPathTree::Node { .. } => {
                    node = next;
                },
            }
        }
    }
}

/// The operations at the leaves of a tree.
pub open spec fn leaf_values(t: FieldPathTree) -> Set<u32>
    decreases t,
{
    match t {
        FieldPathTree::Leaf { value, .. } => set![value],
        FieldPathTree::Node { left, right, .. } => leaf_values(*left).union(leaf_values(*right)),
    }
}

/// The operations at the leaves of a forest.
pub open spec fn forest_values(s: Seq<FieldPathTree>) -> Set<u32>
    decreases s.len(),
{
    if s.len() == 0 {
        Set::empty()
    } else {
        forest_values(s.drop_last()).union(leaf_values(s.last()))
    }
}

proof fn lemma_forest_values_remove(s: Seq<FieldPathTree>, i: int)
    requires
        0 <= i < s.len(),
    ensures
        forest_values(s) == forest_values(s.remove(i)).union(leaf_values(s[i])),
    decreases s.len(),
{
    if i == s.len() - 1 {
        assert(s.remove(i) =~= s.drop_last());
    } else {
        lemma_forest_values_remove(s.drop_last(), i);
        assert(s.remove(i).drop_last() =~= s.drop_last().remove(i));
        assert(s.remove(i).last() == s.last());
        assert(forest_values(s) =~= forest_values(s.remove(i)).union(leaf_values(s[i])));
    }
}

/// A nonempty forest of trees with distinct values has a tree the queue
/// gives up first.
proof fn lemma_first_exists(s: Seq<FieldPathTree>, next: int)
    requires
        s.len() > 0,
        values_below(s, next),
    ensures
        is_first(s, first_of(s)),
    decreases s.len(),
{
    if s.len() == 1 {
        assert(is_first(s, 0));
    } else {
        let f = s.drop_last();
        assert(values_below(f, next));
        lemma_first_exists(f, next);
        let i = first_of(f);
        let l = (s.len() - 1) as int;
        if pops_before(s[l], s[i]) {
            assert forall|j: int| 0 <= j < s.len() && j != l implies !pops_before(#[trigger] s[j], s[l]) by {
                if j != i {
                    assert(!pops_before(f[j], f[i]));
                }
                assert(s[j].value_of() != s[l].value_of());
            }
            assert(is_first(s, l));
        } else {
            assert forall|j: int| 0 <= j < s.len() && j != i implies !pops_before(#[trigger] s[j], s[i]) by {
                if j != l {
                    assert(f[j] == s[j]);
                }
            }
            assert(is_first(s, i));
        }
    }
}

/// Merging keeps the operations of a forest: its tree holds every leaf
/// of the forest and nothing else.
#[verifier::spinoff_prover]
proof fn lemma_huffman_leaves(forest: Seq<FieldPathTree>, next: u32)
    requires
        forest.len() >= 1,
        values_below(forest, next as int),
        next + forest.len() <= u32::MAX,
    ensures
        leaf_values(huffman(forest, next)) == forest_values(forest),
    decreases forest.len(),
{
    if forest.len() == 1 {
        assert(forest.drop_last() =~= Seq::<FieldPathTree>::empty());
        assert(forest_values(forest.drop_last()) == Set::<u32>::empty());
        assert(forest.last() == forest[0]);
        assert(forest_values(forest) =~= leaf_values(forest[0]));
    } else {
        lemma_first_exists(forest, next as int);
        let i = first_of(forest);
        let a = forest[i];
        let rest = forest.remove(i);
        assert(values_below(rest, next as int)) by {
            assert forall|x: int| 0 <= x < rest.len() implies (#[trigger] rest[x]).value_of() < next by {
                if x < i {
                    assert(rest[x] == forest[x]);
                } else {
                    assert(rest[x] == forest[x + 1]);
                }
            }
            assert forall|x: int, y: int|
                0 <= x < rest.len() && 0 <= y < rest.len() && x != y implies rest[x].value_of()
                != rest[y].value_of() by {
                let fx = if x < i { x } else { x + 1 };
                let fy = if y < i { y } else { y + 1 };
                assert(rest[x] == forest[fx]);
                assert(rest[y] == forest[fy]);
            }
        }
        lemma_first_exists(rest, next as int);
        let j = first_of(rest);
        let b = rest[j];
        let rest2 = rest.remove(j);
        let node = FieldPathTree::Node {
            weight: (a.weight_of() + b.weight_of()) as u32,
            value: next,
            left: Box::new(a),
            right: Box::new(b),
        };
        let merged = rest2.push(node);
        assert(values_below(merged, (next + 1) as int)) by {
            assert forall|x: int| 0 <= x < merged.len() implies (#[trigger] merged[x]).value_of() < next + 1 by {
                if x < rest2.len() {
                    let rx = if x < j { x } else { x + 1 };
                    assert(merged[x] == rest[rx]);
                }
            }
            assert forall|x: int, y: int|
                0 <= x < merged.len() && 0 <= y < merged.len() && x != y implies merged[x].value_of()
                != merged[y].value_of() by {
                if x < rest2.len() {
                    let rx = if x < j { x } else { x + 1 };
                    assert(merged[x] == rest[rx]);
                }
                if y < rest2.len() {
                    let ry = if y < j { y } else { y + 1 };
                    assert(merged[y] == rest[ry]);
                }
            }
        }
        lemma_huffman_leaves(merged, (next + 1) as u32);
        lemma_forest_values_remove(forest, i);
        lemma_forest_values_remove(rest, j);
        assert(merged.drop_last() =~= rest2);
        assert(forest_values(merged) =~= forest_values(forest));
    }
}

/// The leaves of one tree per operation are the operations.
proof fn lemma_leaves_values(weights: Seq<u32>, n: nat)
    requires
        n <= weights.len() <= u32::MAX,
    ensures
        forest_values(leaves(weights).take(n as int)) == Set::new(|v: u32| (v as int) < n),
    decreases n,
{
    if n == 0 {
        assert(forest_values(leaves(weights).take(0)) =~= Set::new(|v: u32| (v as int) < 0));
    } else {
        lemma_leaves_values(weights, (n - 1) as nat);
        assert(leaves(weights).take(n as int).drop_last() =~= leaves(weights).take(n - 1));
        assert(forest_values(leaves(weights).take(n as int)) =~= Set::new(|v: u32| (v as int) < n));
    }
}

/// The Huffman tree of `n` operations has exactly the operations
/// `0..n` at its leaves.
pub proof fn huffman_tree_holds_every_operation(weights: Seq<u32>)
    requires
        1 <= weights.len(),
        2 * weights.len() <= u32::MAX,
    ensures
        leaf_values(huffman(leaves(weights), weights.len() as u32)) == Set::new(
            |v: u32| (v as int) < weights.len(),
        ),
{
    let f = leaves(weights);
    assert(values_below(f, weights.len() as int));
    lemma_huffman_leaves(f, weights.len() as u32);
    lemma_leaves_values(weights, weights.len());
    assert(f.take(weights.len() as int) =~= f);
}

/// Every leaf of `t` is an operation of `weights` and weighs its weight,
/// a zero weight counted as one.
pub open spec fn leaves_weigh(t: FieldPathTree, weights: Seq<u32>) -> bool
    decreases t,
{
    match t {
        FieldPathTree::Leaf { weight, value } => value < weights.len() && weight == if weights[value as int] == 0 {
            1
        } else {
            weights[value as int]
        },
        FieldPathTree::Node { left, right, .. } => leaves_weigh(*left, weights) && leaves_weigh(*right, weights),
    }
}

proof fn lemma_huffman_leaves_weigh(forest: Seq<FieldPathTree>, next: u32, weights: Seq<u32>)
    requires
        forest.len() >= 1,
        forall|x: int| 0 <= x < forest.len() ==> leaves_weigh(#[trigger] forest[x], weights),
    ensures
        leaves_weigh(huffman(forest, next), weights),
    decreases forest.len(),
{
    let i = first_of(forest);
    let rest = forest.remove(i);
    let j = first_of(rest);
    if forest.len() <= 1 || !is_first(forest, i) || !is_first(rest, j) {
    } else {
        let a = forest[i];
        let b = rest[j];
        assert(leaves_weigh(rest[j], weights)) by {
            if j < i {
                assert(rest[j] == forest[j]);
            } else {
                assert(rest[j] == forest[j + 1]);
            }
        }
        let node = FieldPathTree::Node {
            weight: (a.weight_of() + b.weight_of()) as u32,
            value: next,
            left: Box::new(a),
            right: Box::new(b),
        };
        let merged = rest.remove(j).push(node);
        assert forall|x: int| 0 <= x < merged.len() implies leaves_weigh(#[trigger] merged[x], weights) by {
            if x < rest.len() - 1 {
                let rx = if x < j { x } else { x + 1 };
                assert(merged[x] == rest[rx]);
                let fx = if rx < i { rx } else { rx + 1 };
                assert(rest[rx] == forest[fx]);
            }
        }
        lemma_huffman_leaves_weigh(merged, (next + 1) as u32, weights);
    }
}

/// The code is built on the operations' weights, each zero weight counted
/// as one: every leaf of the tree built from `weights` is an operation
/// that weighs its weight, or one where its weight is zero.
pub proof fn huffman_leaves_weigh_their_weights(weights: Seq<u32>)
    requires
        1 <= weights.len() <= u32::MAX,
    ensures
        leaves_weigh(huffman(leaves(weights), weights.len() as u32), weights),
{
    let f = leaves(weights);
    assert forall|x: int| 0 <= x < f.len() implies leaves_weigh(#[trigger] f[x], weights) by {
        assert(f[x] == FieldPathTree::Leaf { weight: leaf_weight(weights[x]), value: x as u32 });
    }
    lemma_huffman_leaves_weigh(f, weights.len() as u32, weights);
}

} // verus!
