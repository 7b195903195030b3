use vstd::prelude::*;
use vstd::relations::injective_on;
use vstd::set_lib::{lemma_int_range, lemma_map_size, lemma_set_disjoint_lens, set_int_range};

verus! {

/// A trigram hash: 3 bytes packed into the low 24 bits of a u32.
/// Collision-free for trigrams since 3 bytes fit exactly.
pub type TrigramHash = u32;

/// The value of the trigram `a b c`: the three bytes read as a big-endian
/// 24-bit number.
pub open spec fn spec_trigram_hash(a: u8, b: u8, c: u8) -> u32 {
    (a as int * 65536 + b as int * 256 + c as int) as u32
}

/// The Bloom bit of a byte: bits 5..7 of the low byte of `b * 0x9E`.
pub open spec fn spec_bloom_hash(b: u8) -> u8 {
    (((b as int * 158) % 256) / 32) as u8
}

/// Pack 3 bytes into a trigram hash. No hashing needed: direct bit packing.
pub fn trigram_hash(a: u8, b: u8, c: u8) -> (h: TrigramHash)
    ensures
        h == spec_trigram_hash(a, b, c),
        h < 0x0100_0000,
{
    let r = ((a as u32) << 16) | ((b as u32) << 8) | (c as u32);
    assert(((a as u32) << 16) | ((b as u32) << 8) | (c as u32) == a as u32 * 65536 + b as u32
        * 256 + c as u32) by (bit_vector);
    r
}

/// Map a byte to one of 8 Bloom bits for next_mask.
/// Uses a multiplicative hash to spread ASCII characters evenly.
pub fn bloom_hash(b: u8) -> (r: u8)
    ensures
        r == spec_bloom_hash(b),
        r < 8,
{
    let p = b.wrapping_mul(0x9E);
    assert(p == (b as int * 158) % 256);
    let r = (p >> 5) & 0x07;
    assert((p >> 5) & 0x07u8 == p / 32) by (bit_vector);
    r
}

/// A single posting entry: one trigram occurrence in one file.
/// 6 bytes on disk: file_id(4) + loc_mask(1) + next_mask(1).
#[derive(Debug, Clone, Copy, PartialEq, Eq, Structural)]
pub struct PostingEntry {
    pub file_id: u32,
    /// Bit i is set if the trigram occurs at some byte offset where offset % 8 == i.
    pub loc_mask: u8,
    /// 8-bit Bloom filter of characters immediately following this trigram.
    pub next_mask: u8,
}

/// A lookup table entry pointing into the postings file.
/// 16 bytes on disk: ngram_hash(4) + offset(8) + length(4).
#[derive(Debug, Clone, Copy, PartialEq, Eq, Structural)]
pub struct LookupEntry {
    pub ngram_hash: TrigramHash,
    /// Byte offset into postings.bin.
    pub offset: u64,
    /// Number of PostingEntry items in this posting list.
    pub length: u32,
}

/// A single trigram query with optional adjacency constraints.
#[derive(Debug, Clone)]
pub struct TrigramQuery {
    pub hash: TrigramHash,
    /// Expected next character for next_mask Bloom check.
    pub expected_next: Option<u8>,
}

/// A query plan built from regex decomposition.
#[derive(Debug)]
pub enum QueryPlan {
    /// All trigram queries must match (literal sequence).
    And(Vec<TrigramQuery>),
    /// At least one branch must match (alternation).
    Or(Vec<QueryPlan>),
    /// No trigrams could be extracted: must scan all files.
    MatchAll,
}

/// The mathematical content of a query plan: the trigram hashes of each
/// `And` node (with their expected next bytes) and the branches of each `Or`.
pub enum PlanModel {
    And(Seq<(u32, Option<u8>)>),
    Or(Seq<PlanModel>),
    MatchAll,
}

impl View for TrigramQuery {
    type V = (u32, Option<u8>);

    open spec fn view(&self) -> (u32, Option<u8>) {
        (self.hash, self.expected_next)
    }
}

/// The model of a plan, node for node.
pub open spec fn plan_model(plan: QueryPlan) -> PlanModel
    decreases plan,
{
    match plan {
        QueryPlan::And(trigrams) => PlanModel::And(trigrams@.map_values(|t: TrigramQuery| t@)),
        QueryPlan::Or(branches) => PlanModel::Or(
            Seq::new(
                branches@.len(),
                |i: int|
                    if 0 <= i < branches@.len() {
                        plan_model(branches@[i])
                    } else {
                        PlanModel::MatchAll
                    },
            ),
        ),
        QueryPlan::MatchAll => PlanModel::MatchAll,
    }
}

impl View for QueryPlan {
    type V = PlanModel;

    open spec fn view(&self) -> PlanModel {
        plan_model(*self)
    }
}

/// A copy of `plan`, node for node.
pub fn clone_plan(plan: &QueryPlan) -> (res: QueryPlan)
    ensures
        res@ == plan@,
    decreases plan,
{
    match plan {
        QueryPlan::MatchAll => QueryPlan::MatchAll,
        QueryPlan::And(trigrams) => {
            let mut out: Vec<TrigramQuery> = Vec::new();
            #[verifier::loop_isolation(false)]
            for i in 0..trigrams.len()
                invariant
                    out@.len() == i,
                    i <= trigrams@.len(),
                    forall|k: int| 0 <= k < i ==> #[trigger] out@[k]@ == trigrams@[k]@,
            {
                let t = &trigrams[i];
                out.push(TrigramQuery { hash: t.hash, expected_next: t.expected_next });
            }
            assert(out@.map_values(|t: TrigramQuery| t@) =~= trigrams@.map_values(
                |t: TrigramQuery| t@,
            ));
            QueryPlan::And(out)
        },
        QueryPlan::Or(branches) => {
            let mut out: Vec<QueryPlan> = Vec::new();
            #[verifier::loop_isolation(false)]
            for i in 0..branches.len()
                invariant
                    out@.len() == i,
                    forall|k: int| 0 <= k < i ==> #[trigger] plan_model(out@[k]) == plan_model(
                        branches@[k],
                    ),
            {
                proof {
                    broadcast use vstd::std_specs::vec::axiom_vec_index_decreases;

                    assert(*plan == QueryPlan::Or(*branches));
                    assert(decreases_to!(*branches => branches[i as int]));
                }
                let b = clone_plan(&branches[i]);
                out.push(b);
            }
            let res = QueryPlan::Or(out);
            proof {
                assert(*plan == QueryPlan::Or(*branches));
                assert(plan_model(res)->Or_0.len() == out@.len());
                assert(plan_model(*plan)->Or_0.len() == branches@.len());
                assert forall|k: int| 0 <= k < out@.len() implies plan_model(res)->Or_0[k]
                    == plan_model(*plan)->Or_0[k] by {
                    assert(plan_model(res)->Or_0[k] == plan_model(out@[k]));
                    assert(plan_model(*plan)->Or_0[k] == plan_model(branches@[k]));
                }
                assert(plan_model(res)->Or_0 =~= plan_model(*plan)->Or_0);
            }
            res
        },
    }
}

impl Clone for QueryPlan {
    fn clone(&self) -> (res: Self)
        ensures
            res@ == self@,
    {
        clone_plan(self)
    }
}

/// Two trigrams hash alike exactly when they are the same three bytes, and
/// every hash fits in 24 bits.
pub proof fn lemma_trigram_hash_injective(a: u8, b: u8, c: u8, d: u8, e: u8, f: u8)
    ensures
        spec_trigram_hash(a, b, c) < 0x0100_0000,
        spec_trigram_hash(a, b, c) == spec_trigram_hash(d, e, f) <==> (a == d && b == e && c
            == f),
{
}

/// Every byte maps to one of the 8 Bloom bits.
pub proof fn lemma_bloom_hash_range(b: u8)
    ensures
        spec_bloom_hash(b) < 8,
{
}

/// The bytes below `bound` whose Bloom bit is `k`.
pub open spec fn bloom_preimage(k: u8, bound: nat) -> Set<u8> {
    Set::new(|x: u8| x < bound && spec_bloom_hash(x) == k)
}

/// The Bloom bit of a byte below 128 is the high 3 bits of the 7-bit value
/// `x * 79 mod 128`; multiplying that value by 47, the inverse of 79 modulo
/// 128, gives the byte back; and the byte plus 128 has the same bit.
proof fn lemma_bloom_digits(x: u8)
    requires
        x < 128,
    ensures
        spec_bloom_hash(x) == ((x * 79) % 128) / 16,
        (((x * 79) % 128) * 47) % 128 == x,
        spec_bloom_hash((x + 128) as u8) == spec_bloom_hash(x),
{
    let w = x as u32;
    assert((((w * 158) % 256) / 32) as u32 == (((w * 79) % 128) / 16) as u32) by (bit_vector)
        requires
            w < 128,
    ;
    assert(((((w * 79) % 128) * 47) % 128) as u32 == w) by (bit_vector)
        requires
            w < 128,
    ;
    assert(((((w + 128) * 158) % 256) / 32) as u32 == (((w * 158) % 256) / 32) as u32)
        by (bit_vector)
        requires
            w < 128,
    ;
}

/// Multiplying by 47 and then by 79 modulo 128 is the identity on `0..128`.
proof fn lemma_bloom_inverse(y: u8)
    requires
        y < 128,
    ensures
        ((((y * 47) % 128) as u8 * 79) % 128) == y,
{
    let w = y as u32;
    assert(((((w * 47) % 128) * 79) % 128) as u32 == w) by (bit_vector)
        requires
            w < 128,
    ;
}

/// The Bloom hash spreads bytes evenly over its 8 bits: each bit is the hash
/// of exactly 16 of the 128 ASCII bytes, and of exactly 32 of all 256 bytes.
pub proof fn lemma_bloom_hash_spread(k: u8)
    requires
        k < 8,
    ensures
        bloom_preimage(k, 128).len() == 16,
        bloom_preimage(k, 256).len() == 32,
{
    let lo = bloom_preimage(k, 128);
    let range = set_int_range(16 * k, 16 * k + 16);
    let back = |y: int| ((y * 47) % 128) as u8;
    assert forall|y: int| #[trigger] range.contains(y) implies lo.contains(back(y)) && (back(y)
        * 79) % 128 == y by {
        let yy = y as u8;
        lemma_bloom_inverse(yy);
        lemma_bloom_digits(back(y));
    }
    assert forall|x: u8| #[trigger] lo.contains(x) implies range.map(back).contains(x) by {
        lemma_bloom_digits(x);
        let y = (x * 79) % 128;
        assert(range.contains(y));
        assert(back(y) == x);
    }
    assert(range.map(back) =~= lo);
    assert(injective_on(back, range));
    lemma_int_range(16 * k, 16 * k + 16);
    lemma_map_size(range, lo, back);

    let up = |x: u8| (x + 128) as u8;
    let hi = lo.map(up);
    assert(injective_on(up, lo));
    lemma_map_size(lo, hi, up);
    assert forall|x: u8| #[trigger] hi.contains(x) implies x >= 128 && spec_bloom_hash(x) == k by {
        let w = choose|w: u8| lo.contains(w) && x == up(w);
        lemma_bloom_digits(w);
    }
    assert forall|x: u8| #[trigger] bloom_preimage(k, 256).contains(x) implies (lo + hi).contains(
        x,
    ) by {
        if x >= 128 {
            let w = (x - 128) as u8;
            lemma_bloom_digits(w);
            assert(up(w) == x);
            assert(lo.contains(w));
        }
    }
    assert(lo + hi =~= bloom_preimage(k, 256));
    assert(lo.disjoint(hi));
    lemma_set_disjoint_lens(lo, hi);
}

} // verus!
