use p3_field::PrimeField32;
use p3_symmetric::PseudoCompressionFunction;
use vstd::arithmetic::div_mod::{
    lemma_fundamental_div_mod_converse_div, lemma_fundamental_div_mod_converse_mod,
};
use vstd::arithmetic::power2::{lemma2_to64, lemma_pow2_adds, lemma_pow2_unfold, pow2};
use vstd::prelude::*;

use crate::memory::{cell_value, MemoryConfig, MemoryError, MemoryImage};

verus! {

/// Field elements in one digest, and in one leaf of the memory tree.
pub const DIGEST_WIDTH: usize = 8;

/// The two-to-one Poseidon2 compression over BabyBear, on canonical values.
pub uninterp spec fn poseidon2_compress_of(left: Seq<u32>, right: Seq<u32>) -> Seq<u32>;

/// Relies on p3_symmetric::TruncatedPermutation over
/// p3_baby_bear::default_babybear_poseidon2_16: the two halves fill the
/// width-16 state as BabyBear elements, the state is permuted, and the first
/// eight lanes come back as canonical values.
#[verifier::external_body]
fn poseidon2_compress(left: &[u32; 8], right: &[u32; 8]) -> (r: [u32; 8])
    ensures
        r@ == poseidon2_compress_of(left@, right@),
{
    let perm = p3_baby_bear::default_babybear_poseidon2_16();
    let hasher = p3_symmetric::TruncatedPermutation::<_, 2, 8, 16>::new(perm);
    let l = left.map(p3_baby_bear::BabyBear::new);
    let r = right.map(p3_baby_bear::BabyBear::new);
    hasher.compress([l, r]).map(|x| x.as_canonical_u32())
}

/// Compresses two digests into their parent.
pub fn compress(left: &[u32; 8], right: &[u32; 8]) -> (r: [u32; 8])
    ensures
        r@ == poseidon2_compress_of(left@, right@),
{
    poseidon2_compress(left, right)
}

pub open spec fn digests_view(v: Seq<[u32; 8]>) -> Seq<Seq<u32>> {
    v.map_values(|d: [u32; 8]| d@)
}

/// The level above `s` in a binary tree: each pair of siblings compressed.
pub open spec fn level_up(s: Seq<Seq<u32>>) -> Seq<Seq<u32>> {
    Seq::new(s.len() / 2, |i: int| poseidon2_compress_of(s[2 * i], s[2 * i + 1]))
}

/// Root of the binary tree of the given height over `leaves`.
pub open spec fn merkle_root(leaves: Seq<Seq<u32>>, height: nat) -> Seq<u32>
    decreases height,
{
    if height == 0 {
        leaves[0]
    } else {
        merkle_root(level_up(leaves), (height - 1) as nat)
    }
}

fn compress_level(level: &Vec<[u32; 8]>) -> (r: Vec<[u32; 8]>)
    ensures
        digests_view(r@) == level_up(digests_view(level@)),
{
    let ghost lv = digests_view(level@);
    let len = level.len();
    let half = len / 2;
    assert(2 * half <= level@.len());
    let mut out: Vec<[u32; 8]> = Vec::with_capacity(half);
    let mut i: usize = 0;
    while i < half
        invariant
            half == level@.len() / 2,
            len == level@.len(),
            2 * half <= level@.len(),
            lv == digests_view(level@),
            i <= half,
            out@.len() == i,
            forall|j: int| 0 <= j < i ==> (#[trigger] out@[j])@ == poseidon2_compress_of(lv[2 * j], lv[2 * j + 1]),
        decreases half - i,
    {
        assert(2 * i + 1 < level@.len());
        let d = compress(&level[2 * i], &level[2 * i + 1]);
        out.push(d);
        i += 1;
    }
    assert(digests_view(out@) =~= level_up(lv));
    out
}

/// Root of the tree of the given height over `leaves`.
pub fn compute_root(leaves: &Vec<[u32; 8]>, height: usize) -> (r: [u32; 8])
    requires
        leaves@.len() == pow2(height as nat),
    ensures
        r@ == merkle_root(digests_view(leaves@), height as nat),
{
    let mut level = copy_digests(leaves);
    let mut h = height;
    while h > 0
        invariant
            h <= height,
            level@.len() == pow2(h as nat),
            merkle_root(digests_view(level@), h as nat) == merkle_root(
                digests_view(leaves@),
                height as nat,
            ),
        decreases h,
    {
        proof {
            lemma_pow2_unfold(h as nat);
        }
        let next = compress_level(&level);
        assert(next@.len() == digests_view(next@).len());
        assert(digests_view(level@).len() == level@.len());
        level = next;
        h -= 1;
    }
    proof {
        vstd::arithmetic::power2::lemma_pow2_pos(0);
        lemma2_to64();
    }
    level[0]
}

fn copy_digests(level: &Vec<[u32; 8]>) -> (r: Vec<[u32; 8]>)
    ensures
        r@ == level@,
{
    let mut out: Vec<[u32; 8]> = Vec::with_capacity(level.len());
    let mut i: usize = 0;
    while i < level.len()
        invariant
            i <= level@.len(),
            out@ == level@.take(i as int),
        decreases level@.len() - i,
    {
        out.push(level[i]);
        i += 1;
        assert(out@ =~= level@.take(i as int));
    }
    assert(level@.take(level@.len() as int) =~= level@);
    out
}

/// log2 of the number of words in a leaf, for words that divide a digest.
pub open spec fn leaf_words_bits(word_size: nat) -> int {
    if word_size == 1 {
        3
    } else if word_size == 2 {
        2
    } else if word_size == 4 {
        1
    } else if word_size == 8 {
        0
    } else {
        -1
    }
}

/// Whether the memory tree can be built for `config`: a whole number of words
/// fills a leaf, and a leaf stays within one address space.
pub open spec fn tree_config_ok(config: MemoryConfig) -> bool {
    let b = leaf_words_bits(config.word_size as nat);
    &&& config.wf()
    &&& b >= 0
    &&& config.pointer_max_bits >= b
}

pub open spec fn tree_height(config: MemoryConfig) -> nat {
    (config.as_max_bits + config.pointer_max_bits - leaf_words_bits(config.word_size as nat)) as nat
}

/// The cell at flat index `ci`: address space `ci / 2^pointer_bits`, pointer
/// `ci % 2^pointer_bits`.
pub open spec fn cell_at(pointer_bits: nat, ci: int) -> (u32, u32) {
    ((ci / pow2(pointer_bits) as int) as u32, (ci % pow2(pointer_bits) as int) as u32)
}

/// Leaf `l` of the memory tree: the words of its cells laid end to end.
pub open spec fn leaf_of(image: Map<(u32, u32), Seq<u32>>, config: MemoryConfig, l: int) -> Seq<
    u32,
> {
    let ws = config.word_size as int;
    let wpl = pow2(leaf_words_bits(ws as nat) as nat) as int;
    Seq::new(
        DIGEST_WIDTH as nat,
        |e: int|
            cell_value(image, ws as nat, cell_at(config.pointer_max_bits as nat, l * wpl + e / ws))[e
                % ws],
    )
}

/// The cells that leaf `l` covers.
pub open spec fn leaf_cell(config: MemoryConfig, l: int, w: int) -> (u32, u32) {
    let wpl = pow2(leaf_words_bits(config.word_size as nat) as nat) as int;
    cell_at(config.pointer_max_bits as nat, l * wpl + w)
}

pub open spec fn image_leaves(image: Map<(u32, u32), Seq<u32>>, config: MemoryConfig) -> Seq<
    Seq<u32>,
> {
    Seq::new(pow2(tree_height(config)), |l: int| leaf_of(image, config, l))
}

/// The digest that commits to a memory image.
pub open spec fn memory_digest(image: Map<(u32, u32), Seq<u32>>, config: MemoryConfig) -> Seq<u32> {
    merkle_root(image_leaves(image, config), tree_height(config))
}

pub fn leaf_words_bits_of(word_size: usize) -> (r: Option<usize>)
    ensures
        r matches Some(b) ==> b == leaf_words_bits(word_size as nat),
        r is None <==> leaf_words_bits(word_size as nat) < 0,
{
    if word_size == 1 {
        Some(3)
    } else if word_size == 2 {
        Some(2)
    } else if word_size == 4 {
        Some(1)
    } else if word_size == 8 {
        Some(0)
    } else {
        None
    }
}

/// Whether the memory tree can be built for `config`.
pub fn check_tree_config(config: &MemoryConfig) -> (r: bool)
    ensures
        r == tree_config_ok(*config),
{
    if config.validate().is_err() {
        return false;
    }
    match leaf_words_bits_of(config.word_size) {
        Some(b) => config.pointer_max_bits >= b,
        None => false,
    }
}

proof fn lemma_leaf_element(ws: int, w: int, l: int)
    requires
        ws > 0,
        0 <= l < ws,
        w >= 0,
    ensures
        (w * ws + l) / ws == w,
        (w * ws + l) % ws == l,
{
    lemma_fundamental_div_mod_converse_div(w * ws + l, ws, w, l);
    lemma_fundamental_div_mod_converse_mod(w * ws + l, ws, w, l);
}

/// Leaf `l` of the memory tree of `image`.
pub fn compute_leaf(image: &MemoryImage, l: u64) -> (r: [u32; 8])
    requires
        image.wf(),
        tree_config_ok(image.config()),
        l < pow2(tree_height(image.config())),
    ensures
        r@ == leaf_of(image.image(), image.config(), l as int),
{
    let config = image.get_config();
    let ws = config.word_size;
    let b = match leaf_words_bits_of(ws) {
        Some(b) => b,
        None => {
            return [0u32; 8];
        },
    };
    let height = config.as_max_bits + config.pointer_max_bits - b;
    proof {
        lemma2_to64();
        vstd::arithmetic::power2::lemma2_to64_rest();
        vstd::bits::lemma_u64_pow2_no_overflow(b as nat);
        assert(pow2(b as nat) * ws == 8);
        lemma_pow2_adds(height as nat, b as nat);
        if height + b < 60 {
            vstd::arithmetic::power2::lemma_pow2_strictly_increases(height as nat + b as nat, 60);
        }
        vstd::arithmetic::power2::lemma_pow2_pos(b as nat);
    }
    let wpl: u64 = pow2_u64(b);
    let p2: u64 = pow2_u64(config.pointer_max_bits);
    proof {
        vstd::arithmetic::power2::lemma_pow2_pos(config.pointer_max_bits as nat);
        assert(l * wpl + wpl <= pow2(height as nat) * wpl) by (nonlinear_arith)
            requires
                l < pow2(height as nat),
        ;
    }
    let ghost img = image.image();
    let ghost nl = pow2(height as nat);
    let mut leaf = [0u32; 8];
    let mut w: u64 = 0;
    while w < wpl
        invariant
            image.wf(),
            img == image.image(),
            config == image.config(),
            ws == config.word_size,
            wpl == pow2(b as nat),
            b == leaf_words_bits(ws as nat),
            wpl * ws == 8,
            l * wpl + wpl <= nl * wpl,
            nl * wpl <= 0x1000_0000_0000_0000,
            p2 == pow2(config.pointer_max_bits as nat),
            p2 > 0,
            w <= wpl,
            forall|e: int| 0 <= e < w * ws ==> #[trigger] leaf@[e] == leaf_of(img, config, l as int)[e],
        decreases wpl - w,
    {
        proof {
            assert((w + 1) * ws <= 8) by (nonlinear_arith)
                requires
                    w < wpl,
                    wpl * ws == 8,
            ;
        }
        let ci = l * wpl + w;
        let word = image.get((ci / p2) as u32, (ci % p2) as u32);
        proof {
            image.lemma_wf();
        }
        let mut k: usize = 0;
        while k < ws
            invariant
                image.wf(),
                ws == config.word_size,
                word@ == cell_value(img, ws as nat, cell_at(config.pointer_max_bits as nat, ci as int)),
                word@.len() == ws,
                ci == l * wpl + w,
                wpl == pow2(b as nat),
                (w + 1) * ws <= 8,
                b == leaf_words_bits(ws as nat),
                img == image.image(),
                config == image.config(),
                k <= ws,
                forall|e: int| 0 <= e < w * ws + k ==> #[trigger] leaf@[e] == leaf_of(img, config, l as int)[e],
            decreases ws - k,
        {
            assert(w * ws + k < 8) by (nonlinear_arith)
                requires
                    k < ws,
                    (w + 1) * ws <= 8,
            ;
            let e = (w * (ws as u64) + (k as u64)) as usize;
            proof {
                lemma_leaf_element(ws as int, w as int, k as int);
                assert(e as int == w * ws + k);
                assert(leaf_words_bits(ws as nat) as nat == b as nat);
                assert(leaf_of(img, config, l as int)[e as int] == cell_value(
                    img,
                    ws as nat,
                    cell_at(config.pointer_max_bits as nat, l * wpl + w),
                )[k as int]);
            }
            let ghost before = leaf;
            leaf[e] = word[k];
            proof {
                assert forall|e2: int| 0 <= e2 < w * ws + k + 1 implies #[trigger] leaf@[e2]
                    == leaf_of(img, config, l as int)[e2] by {
                    if e2 < e {
                        assert(leaf@[e2] == before@[e2]);
                    }
                }
            }
            k += 1;
        }
        w += 1;
        assert(w * ws == (w - 1) * ws + ws) by (nonlinear_arith);
    }
    proof {
        assert forall|e: int| 0 <= e < 8 implies #[trigger] leaf@[e] == leaf_of(img, config, l as int)[e] by {
            assert(w * ws == 8);
        }
        assert(leaf@ =~= leaf_of(img, config, l as int));
    }
    leaf
}

/// The digest of a subtree whose leaves all hold zero words.
pub open spec fn zero_digest(h: nat) -> Seq<u32>
    decreases h,
{
    if h == 0 {
        Seq::new(DIGEST_WIDTH as nat, |i: int| 0u32)
    } else {
        poseidon2_compress_of(zero_digest((h - 1) as nat), zero_digest((h - 1) as nat))
    }
}

/// The leaves of the subtree of height `h` whose first leaf is `base`.
pub open spec fn subtree_leaves(
    image: Map<(u32, u32), Seq<u32>>,
    config: MemoryConfig,
    h: nat,
    base: int,
) -> Seq<Seq<u32>> {
    Seq::new(pow2(h), |l: int| leaf_of(image, config, base + l))
}

pub open spec fn subtree_root(
    image: Map<(u32, u32), Seq<u32>>,
    config: MemoryConfig,
    h: nat,
    base: int,
) -> Seq<u32> {
    merkle_root(subtree_leaves(image, config, h, base), h)
}

/// The leaf that holds cell `c`.
pub open spec fn cell_leaf(config: MemoryConfig, c: (u32, u32)) -> int {
    let wpl = pow2(leaf_words_bits(config.word_size as nat) as nat) as int;
    (c.0 * pow2(config.pointer_max_bits as nat) + c.1) / wpl
}

/// The root of a tree is the compression of the roots of its two halves.
proof fn lemma_root_split(s: Seq<Seq<u32>>, h: nat)
    requires
        h >= 1,
        s.len() == pow2(h),
    ensures
        merkle_root(s, h) == poseidon2_compress_of(
            merkle_root(s.take(pow2((h - 1) as nat) as int), (h - 1) as nat),
            merkle_root(s.skip(pow2((h - 1) as nat) as int), (h - 1) as nat),
        ),
    decreases h,
{
    lemma_pow2_unfold(h);
    let half = pow2((h - 1) as nat) as int;
    if h == 1 {
        vstd::arithmetic::power2::lemma2_to64();
        assert(half == 1);
        assert(merkle_root(s, h) == merkle_root(level_up(s), 0));
        assert(level_up(s)[0] == poseidon2_compress_of(s[0], s[1]));
        assert(s.take(half)[0] == s[0]);
        assert(s.skip(half)[0] == s[1]);
    } else {
        lemma_pow2_unfold((h - 1) as nat);
        let q = pow2((h - 2) as nat) as int;
        let u = level_up(s);
        assert(u.len() == half);
        lemma_root_split(u, (h - 1) as nat);
        let a = s.take(half);
        let c = s.skip(half);
        assert(half == 2 * q);
        assert(merkle_root(s, h) == merkle_root(u, (h - 1) as nat));
        assert(merkle_root(a, (h - 1) as nat) == merkle_root(level_up(a), (h - 2) as nat));
        assert(merkle_root(c, (h - 1) as nat) == merkle_root(level_up(c), (h - 2) as nat));
        assert(pow2(((h - 1) as nat - 1) as nat) == q);
        assert(u.take(q) =~= level_up(a)) by {
            assert forall|i: int| 0 <= i < q implies u.take(q)[i] == level_up(a)[i] by {
                assert(a[2 * i] == s[2 * i] && a[2 * i + 1] == s[2 * i + 1]);
            }
        }
        assert(u.skip(q) =~= level_up(c)) by {
            assert forall|i: int| 0 <= i < q implies u.skip(q)[i] == level_up(c)[i] by {
                assert(c[2 * i] == s[half + 2 * i] && c[2 * i + 1] == s[half + 2 * i + 1]);
                assert(u[q + i] == poseidon2_compress_of(s[2 * (q + i)], s[2 * (q + i) + 1]));
            }
        }
    }
}

proof fn lemma_subtree_split(image: Map<(u32, u32), Seq<u32>>, config: MemoryConfig, h: nat, base: int)
    requires
        h >= 1,
    ensures
        subtree_root(image, config, h, base) == poseidon2_compress_of(
            subtree_root(image, config, (h - 1) as nat, base),
            subtree_root(image, config, (h - 1) as nat, base + pow2((h - 1) as nat)),
        ),
{
    lemma_pow2_unfold(h);
    let s = subtree_leaves(image, config, h, base);
    let half = pow2((h - 1) as nat) as int;
    lemma_root_split(s, h);
    assert(s.take(half) =~= subtree_leaves(image, config, (h - 1) as nat, base));
    assert(s.skip(half) =~= subtree_leaves(image, config, (h - 1) as nat, base + half));
}

proof fn lemma_zero_subtree(image: Map<(u32, u32), Seq<u32>>, config: MemoryConfig, h: nat, base: int)
    requires
        forall|l: int| 0 <= l < pow2(h) ==> #[trigger] leaf_of(image, config, base + l) == zero_digest(0),
    ensures
        subtree_root(image, config, h, base) == zero_digest(h),
    decreases h,
{
    if h == 0 {
        vstd::arithmetic::power2::lemma2_to64();
        assert(leaf_of(image, config, base + 0) == zero_digest(0));
        assert(subtree_leaves(image, config, 0, base)[0] == leaf_of(image, config, base + 0));
    } else {
        lemma_pow2_unfold(h);
        let half = pow2((h - 1) as nat) as int;
        assert forall|l: int| 0 <= l < half implies #[trigger] leaf_of(image, config, base + half + l)
            == zero_digest(0) by {
            assert(leaf_of(image, config, base + (half + l)) == zero_digest(0));
            assert(base + half + l == base + (half + l));
        }
        lemma_zero_subtree(image, config, (h - 1) as nat, base);
        lemma_zero_subtree(image, config, (h - 1) as nat, base + half);
        lemma_subtree_split(image, config, h, base);
    }
}

/// A leaf none of whose cells the image holds is all zeros.
proof fn lemma_untouched_leaf_zero(image: Map<(u32, u32), Seq<u32>>, config: MemoryConfig, l: int)
    requires
        tree_config_ok(config),
        forall|w: int|
            0 <= w < pow2(leaf_words_bits(config.word_size as nat) as nat) ==> !image.contains_key(
                #[trigger] leaf_cell(config, l, w),
            ),
    ensures
        leaf_of(image, config, l) == zero_digest(0),
{
    let ws = config.word_size as int;
    let wpl = pow2(leaf_words_bits(ws as nat) as nat) as int;
    assert(wpl * ws == 8) by {
        vstd::arithmetic::power2::lemma2_to64();
        assert(leaf_words_bits(ws as nat) >= 0);
        if ws == 1 {
            assert(wpl == 8);
        } else if ws == 2 {
            assert(wpl == 4);
        } else if ws == 4 {
            assert(wpl == 2);
        } else {
            assert(ws == 8);
            assert(wpl == 1);
        }
    }
    assert forall|e: int| 0 <= e < 8 implies #[trigger] leaf_of(image, config, l)[e] == 0u32 by {
        let w = e / ws;
        assert(0 <= w < wpl && 0 <= e % ws < ws) by (nonlinear_arith)
            requires
                w == e / ws,
                0 <= e < 8,
                wpl * ws == 8,
                ws > 0,
        ;
        assert(!image.contains_key(leaf_cell(config, l, w)));
    }
    assert(leaf_of(image, config, l) =~= zero_digest(0));
}

/// The cell at position `w` of leaf `l` lies in leaf `l`.
proof fn lemma_cell_leaf(config: MemoryConfig, l: int, w: int)
    requires
        tree_config_ok(config),
        0 <= l,
        0 <= w < pow2(leaf_words_bits(config.word_size as nat) as nat),
        l * pow2(leaf_words_bits(config.word_size as nat) as nat) + w < pow2(
            (config.as_max_bits + config.pointer_max_bits) as nat,
        ),
    ensures
        cell_leaf(config, leaf_cell(config, l, w)) == l,
{
    let wpl = pow2(leaf_words_bits(config.word_size as nat) as nat) as int;
    let p = pow2(config.pointer_max_bits as nat) as int;
    let ci = l * wpl + w;
    vstd::arithmetic::power2::lemma2_to64();
    vstd::arithmetic::power2::lemma_pow2_pos(config.pointer_max_bits as nat);
    lemma_pow2_adds(config.as_max_bits as nat, config.pointer_max_bits as nat);
    if config.as_max_bits < 30 {
        vstd::arithmetic::power2::lemma_pow2_strictly_increases(config.as_max_bits as nat, 30);
    }
    if config.pointer_max_bits < 30 {
        vstd::arithmetic::power2::lemma_pow2_strictly_increases(config.pointer_max_bits as nat, 30);
    }
    let a = pow2(config.as_max_bits as nat) as int;
    vstd::arithmetic::div_mod::lemma_fundamental_div_mod(ci, p);
    assert(0 <= ci / p < a) by (nonlinear_arith)
        requires
            0 <= ci < a * p,
            p > 0,
            ci == p * (ci / p) + ci % p,
            0 <= ci % p < p,
    ;
    let c = leaf_cell(config, l, w);
    assert(c.0 == ci / p && c.1 == ci % p);
    assert(c.0 * p + c.1 == ci) by (nonlinear_arith)
        requires
            c.0 == ci / p,
            c.1 == ci % p,
            ci == p * (ci / p) + ci % p,
    ;
    lemma_fundamental_div_mod_converse_div(ci, wpl, l, w);
}

pub open spec fn has_leaf_index(idx: Seq<u64>, l: int) -> bool {
    exists|i: int| 0 <= i < idx.len() && #[trigger] idx[i] == l
}

/// The leaf of every cell the image holds.
fn stored_leaves(image: &MemoryImage) -> (r: Vec<u64>)
    requires
        image.wf(),
        tree_config_ok(image.config()),
    ensures
        forall|c: (u32, u32)|
            #[trigger] image.image().contains_key(c) ==> has_leaf_index(r@, cell_leaf(image.config(), c)),
{
    let config = image.get_config();
    let b = match leaf_words_bits_of(config.word_size) {
        Some(b) => b,
        None => {
            return Vec::new();
        },
    };
    let wpl = pow2_u64(b);
    let p2 = pow2_u64(config.pointer_max_bits);
    let cells = image.stored_cells();
    proof {
        image.lemma_wf();
        vstd::arithmetic::power2::lemma2_to64();
        vstd::arithmetic::power2::lemma_pow2_pos(b as nat);
        if config.pointer_max_bits < 30 {
            vstd::arithmetic::power2::lemma_pow2_strictly_increases(config.pointer_max_bits as nat, 30);
        }
        if config.as_max_bits < 30 {
            vstd::arithmetic::power2::lemma_pow2_strictly_increases(config.as_max_bits as nat, 30);
        }
    }
    let mut out: Vec<u64> = Vec::new();
    let mut i: usize = 0;
    while i < cells.len()
        invariant
            image.wf(),
            config == image.config(),
            config.wf(),
            b == leaf_words_bits(config.word_size as nat),
            wpl == pow2(b as nat),
            wpl > 0,
            p2 == pow2(config.pointer_max_bits as nat),
            p2 <= 0x4000_0000,
            pow2(config.as_max_bits as nat) <= 0x4000_0000,
            forall|j: int| 0 <= j < cells@.len() ==> image.image().contains_key(#[trigger] cells@[j]),
            i <= cells@.len(),
            out@.len() == i,
            forall|j: int| 0 <= j < i ==> #[trigger] out@[j] == cell_leaf(config, cells@[j]),
        decreases cells@.len() - i,
    {
        let c = cells[i];
        proof {
            image.lemma_wf();
            assert(image.image().contains_key(c));
            assert(config.in_bounds(c.0, c.1));
            assert(c.0 * p2 + c.1 < 0x4000_0000 * 0x4000_0000) by (nonlinear_arith)
                requires
                    c.0 < pow2(config.as_max_bits as nat),
                    pow2(config.as_max_bits as nat) <= 0x4000_0000,
                    c.1 < p2,
                    p2 <= 0x4000_0000,
            ;
        }
        out.push((c.0 as u64 * p2 + c.1 as u64) / wpl);
        i += 1;
    }
    proof {
        assert forall|c: (u32, u32)| #[trigger] image.image().contains_key(c) implies has_leaf_index(
            out@,
            cell_leaf(config, c),
        ) by {
            assert(cells@.contains(c));
            let j = choose|j: int| 0 <= j < cells@.len() && cells@[j] == c;
            assert(out@[j] == cell_leaf(config, cells@[j]));
        }
    }
    out
}

/// Whether some index of `idx` lies in `[lo, hi)`.
fn any_in_range(idx: &Vec<u64>, lo: u64, hi: u64) -> (r: bool)
    ensures
        r == exists|i: int| 0 <= i < idx@.len() && lo <= #[trigger] idx@[i] < hi,
{
    let mut i: usize = 0;
    while i < idx.len()
        invariant
            i <= idx@.len(),
            forall|j: int| 0 <= j < i ==> !(lo <= #[trigger] idx@[j] < hi),
        decreases idx@.len() - i,
    {
        if lo <= idx[i] && idx[i] < hi {
            return true;
        }
        i += 1;
    }
    false
}

/// The digests of all-zero subtrees of heights `0..=height`.
fn zero_digests(height: usize) -> (r: Vec<[u32; 8]>)
    ensures
        r@.len() == height + 1,
        forall|k: int| 0 <= k <= height ==> (#[trigger] r@[k])@ == zero_digest(k as nat),
{
    let mut out: Vec<[u32; 8]> = Vec::new();
    let z = [0u32; 8];
    assert(z@ =~= zero_digest(0));
    out.push(z);
    let mut k: usize = 0;
    while k < height
        invariant
            k <= height,
            out@.len() == k + 1,
            forall|j: int| 0 <= j <= k ==> (#[trigger] out@[j])@ == zero_digest(j as nat),
        decreases height - k,
    {
        let d = compress(&out[k], &out[k]);
        out.push(d);
        k += 1;
    }
    out
}

/// The root of the subtree of height `h` whose first leaf is `base`: the
/// all-zero digest where no stored cell falls in it, else the compression of
/// its two halves.
fn subtree(
    image: &MemoryImage,
    idx: &Vec<u64>,
    zeros: &Vec<[u32; 8]>,
    h: usize,
    base: u64,
) -> (r: [u32; 8])
    requires
        image.wf(),
        tree_config_ok(image.config()),
        h <= tree_height(image.config()),
        base + pow2(h as nat) <= pow2(tree_height(image.config())),
        zeros@.len() > h,
        forall|k: int| 0 <= k <= h ==> (#[trigger] zeros@[k])@ == zero_digest(k as nat),
        forall|c: (u32, u32)|
            #[trigger] image.image().contains_key(c) ==> has_leaf_index(idx@, cell_leaf(image.config(), c)),
    ensures
        r@ == subtree_root(image.image(), image.config(), h as nat, base as int),
    decreases h,
{
    let ghost config = image.config();
    let ghost img = image.image();
    let ghost big = tree_height(config);
    proof {
        vstd::arithmetic::power2::lemma2_to64();
        vstd::arithmetic::power2::lemma2_to64_rest();
        if big < 60 {
            vstd::arithmetic::power2::lemma_pow2_strictly_increases(big, 60);
        }
    }
    let size = pow2_u64(h);
    if !any_in_range(idx, base, base + size) {
        proof {
            let b = leaf_words_bits(config.word_size as nat) as nat;
            let wpl = pow2(b) as int;
            lemma_pow2_adds(big, b);
            vstd::arithmetic::power2::lemma_pow2_pos(b);
            assert forall|l: int| 0 <= l < pow2(h as nat) implies #[trigger] leaf_of(img, config, base + l)
                == zero_digest(0) by {
                assert forall|w: int| 0 <= w < wpl implies !img.contains_key(
                    #[trigger] leaf_cell(config, base + l, w),
                ) by {
                    let c = leaf_cell(config, base + l, w);
                    if img.contains_key(c) {
                        assert(base + l < pow2(big));
                        assert((base + l) * wpl + w < pow2(big) * wpl) by (nonlinear_arith)
                            requires
                                0 <= base + l < pow2(big),
                                0 <= w < wpl,
                        ;
                        assert(big + b == config.as_max_bits + config.pointer_max_bits);
                        lemma_cell_leaf(config, base + l, w);
                        assert(has_leaf_index(idx@, base + l));
                        let i = choose|i: int| 0 <= i < idx@.len() && idx@[i] == base + l;
                        assert(base <= idx@[i] < base + size);
                    }
                }
                lemma_untouched_leaf_zero(img, config, base + l);
            }
            lemma_zero_subtree(img, config, h as nat, base as int);
        }
        return zeros[h];
    }
    if h == 0 {
        let leaf = compute_leaf(image, base);
        proof {
            assert(subtree_leaves(img, config, 0, base as int)[0] == leaf_of(img, config, base + 0));
        }
        return leaf;
    }
    let half = pow2_u64(h - 1);
    proof {
        lemma_pow2_unfold(h as nat);
    }
    let left = subtree(image, idx, zeros, h - 1, base);
    let right = subtree(image, idx, zeros, h - 1, base + half);
    proof {
        lemma_subtree_split(img, config, h as nat, base as int);
    }
    compress(&left, &right)
}

/// `2^bits` for a small exponent.
pub fn pow2_u64(bits: usize) -> (r: u64)
    requires
        bits < 64,
    ensures
        r == pow2(bits as nat),
{
    proof {
        vstd::bits::lemma_u64_pow2_no_overflow(bits as nat);
        assert(1 * pow2(bits as nat) == pow2(bits as nat));
        vstd::bits::lemma_u64_shl_is_mul(1, bits as u64);
    }
    1u64 << bits as u64
}

/// The digest committing to a memory image, or `InvalidConfig` where the
/// memory tree cannot be built for the image's configuration. Only subtrees
/// that hold a stored cell are recomputed; every other subtree takes the
/// digest of an all-zero subtree of its height.
pub fn digest(image: &MemoryImage) -> (r: Result<[u32; 8], MemoryError>)
    requires
        image.wf(),
    ensures
        r is Ok <==> tree_config_ok(image.config()),
        r is Err ==> r == Err::<[u32; 8], _>(MemoryError::InvalidConfig),
        r matches Ok(d) ==> d@ == memory_digest(image.image(), image.config()),
{
    let config = image.get_config();
    if !check_tree_config(&config) {
        return Err(MemoryError::InvalidConfig);
    }
    let b = match leaf_words_bits_of(config.word_size) {
        Some(b) => b,
        None => {
            return Err(MemoryError::InvalidConfig);
        },
    };
    let height = config.as_max_bits + config.pointer_max_bits - b;
    let idx = stored_leaves(image);
    let zeros = zero_digests(height);
    let r = subtree(image, &idx, &zeros, height, 0);
    proof {
        assert(subtree_leaves(image.image(), config, height as nat, 0) =~= image_leaves(
            image.image(),
            config,
        ));
    }
    Ok(r)
}

} // verus!
