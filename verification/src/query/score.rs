use vstd::prelude::*;

verus! {

/// `r` is the integer square root of `x`: the largest integer whose square
/// does not exceed `x`.
pub open spec fn is_floor_sqrt(r: int, x: int) -> bool {
    0 <= r && r * r <= x < (r + 1) * (r + 1)
}

/// The integer square root of `x`.
pub open spec fn floor_sqrt(x: nat) -> nat
    decreases x,
{
    if x == 0 {
        0
    } else {
        let r = floor_sqrt((x - 1) as nat);
        if (r + 1) * (r + 1) <= x {
            r + 1
        } else {
            r
        }
    }
}

/// `floor_sqrt` is the integer square root.
pub proof fn lemma_floor_sqrt(x: nat)
    ensures
        is_floor_sqrt(floor_sqrt(x) as int, x as int),
    decreases x,
{
    if x > 0 {
        lemma_floor_sqrt((x - 1) as nat);
        let r = floor_sqrt((x - 1) as nat) as int;
        assert((r + 2) * (r + 2) > (r + 1) * (r + 1) + 1) by (nonlinear_arith)
            requires
                r >= 0,
        ;
    }
}

/// The integer square root is unique.
pub proof fn lemma_floor_sqrt_unique(r: int, x: int)
    requires
        is_floor_sqrt(r, x),
    ensures
        r == floor_sqrt(x as nat),
{
    lemma_floor_sqrt(x as nat);
    let s = floor_sqrt(x as nat) as int;
    if r < s {
        assert((r + 1) * (r + 1) <= s * s) by (nonlinear_arith)
            requires
                0 <= r,
                r + 1 <= s,
        ;
    }
    if s < r {
        assert((s + 1) * (s + 1) <= r * r) by (nonlinear_arith)
            requires
                0 <= s,
                s + 1 <= r,
        ;
    }
}

/// Largest value that a compressed term frequency or a norm can take.
pub const SCALE_MAX: u8 = 255;

/// The compressed term frequency of a raw frequency: eight times its square
/// root, rounded down and capped at 255.
pub open spec fn tf_of(freq: u16) -> int {
    let root = floor_sqrt((64 * freq) as nat) as int;
    if root > 255 {
        255
    } else {
        root
    }
}

/// The length norm of a field of `len` characters, `len > 0`: 255 divided by
/// the square root of `len`, rounded down.
pub open spec fn norm_of(len: int) -> int {
    floor_sqrt((65025int / len) as nat) as int
}

/// `norm_of(len)` is the largest `n` with `n * n * len <= 255 * 255`, which is
/// the largest `n` with `n * sqrt(len) <= 255`.
pub proof fn lemma_norm_of(len: int)
    requires
        len > 0,
    ensures
        0 <= norm_of(len) <= 255,
        norm_of(len) * norm_of(len) * len <= 65025,
        (norm_of(len) + 1) * (norm_of(len) + 1) * len > 65025,
{
    let q = 65025int / len;
    let n = norm_of(len);
    lemma_floor_sqrt(q as nat);
    assert(q * len <= 65025 < (q + 1) * len) by (nonlinear_arith)
        requires
            len > 0,
            q == 65025int / len,
    ;
    assert(n * n * len <= q * len) by (nonlinear_arith)
        requires
            n * n <= q,
            len > 0,
    ;
    assert((n + 1) * (n + 1) * len >= (q + 1) * len) by (nonlinear_arith)
        requires
            (n + 1) * (n + 1) >= q + 1,
            len > 0,
    ;
    assert(q <= 65025) by (nonlinear_arith)
        requires
            q * len <= 65025,
            len >= 1,
            q >= 0,
    ;
    if n > 255 {
        assert(n * n >= 256 * 256) by (nonlinear_arith)
            requires
                n >= 256,
        ;
    }
}

/// Integer square root of a value below `256 * 256`, by bisection.
fn small_sqrt(x: u32) -> (r: u32)
    requires
        x < 65536,
    ensures
        r == floor_sqrt(x as nat),
        r <= 255,
{
    let mut lo: u32 = 0;
    let mut hi: u32 = 256;
    while hi - lo > 1
        invariant
            lo < hi <= 256,
            lo * lo <= x < hi * hi,
        decreases hi - lo,
    {
        let mid: u32 = lo + (hi - lo) / 2;
        assert(mid * mid <= 255 * 255) by (nonlinear_arith)
            requires
                mid <= 255,
        ;
        if mid * mid <= x {
            lo = mid;
        } else {
            hi = mid;
        }
    }
    proof {
        lemma_floor_sqrt_unique(lo as int, x as int);
    }
    lo
}

/// Compresses a raw term frequency to eight bits.
pub fn calc_tf(freq: u16) -> (tf: u8)
    ensures
        tf == tf_of(freq),
{
    let scaled: u32 = 64 * (freq as u32);
    if scaled >= 65025 {
        proof {
            lemma_floor_sqrt(scaled as nat);
            let root = floor_sqrt(scaled as nat) as int;
            if root < 255 {
                assert((root + 1) * (root + 1) <= 255 * 255) by (nonlinear_arith)
                    requires
                        0 <= root,
                        root + 1 <= 255,
                ;
            }
        }
        SCALE_MAX
    } else {
        small_sqrt(scaled) as u8
    }
}

/// The length norm of a field of `len` characters.
pub fn calc_norm(len: usize) -> (norm: u8)
    requires
        len > 0,
    ensures
        norm == norm_of(len as int),
{
    if len > 65025 {
        assert(65025int / (len as int) == 0) by (nonlinear_arith)
            requires
                len > 65025,
        ;
        assert(floor_sqrt(0) == 0);
        0
    } else {
        let quotient: u32 = 65025 / (len as u32);
        assert(quotient as int == 65025int / (len as int));
        assert(quotient <= 65025) by (nonlinear_arith)
            requires
                quotient as int == 65025int / (len as int),
                len >= 1,
        ;
        small_sqrt(quotient) as u8
    }
}

/// The norm that an index stores for a field of `len` characters: a field
/// without text is skipped and has norm 0.
pub open spec fn field_norm_of(len: int) -> int {
    if len == 0 {
        0
    } else {
        norm_of(len)
    }
}

/// The norm that an index stores for a field of `len` characters.
pub fn field_norm(len: usize) -> (norm: u8)
    ensures
        norm == field_norm_of(len as int),
{
    if len == 0 {
        0
    } else {
        calc_norm(len)
    }
}

/// The weights by which a document's fields count towards a term's priority.
#[derive(Debug, Clone, Copy)]
pub struct TfIdfTermPriorityCalculator {
    total_doc_num: u32,
    boost_title: u8,
    boost_content: u8,
}

/// The boosted sum of `tf * norm` over the two fields of a document.
pub open spec fn weight_of(
    boost_title: u8,
    boost_content: u8,
    tf_title: u8,
    tf_content: u8,
    norm_title: u8,
    norm_content: u8,
) -> int {
    tf_title * norm_title * boost_title + tf_content * norm_content * boost_content
}

impl TfIdfTermPriorityCalculator {
    pub closed spec fn spec_total_doc_num(&self) -> u32 {
        self.total_doc_num
    }

    pub closed spec fn spec_boost_title(&self) -> u8 {
        self.boost_title
    }

    pub closed spec fn spec_boost_content(&self) -> u8 {
        self.boost_content
    }

    pub fn new(total_doc_num: u32, boost_title: u8, boost_content: u8) -> (calc: Self)
        ensures
            calc.spec_total_doc_num() == total_doc_num,
            calc.spec_boost_title() == boost_title,
            calc.spec_boost_content() == boost_content,
    {
        TfIdfTermPriorityCalculator { total_doc_num, boost_title, boost_content }
    }

    /// Number of documents in the index.
    #[verifier::when_used_as_spec(spec_total_doc_num)]
    pub fn total_doc_num(&self) -> (n: u32)
        ensures
            n == self.spec_total_doc_num(),
    {
        self.total_doc_num
    }

    #[verifier::when_used_as_spec(spec_boost_title)]
    pub fn boost_title(&self) -> (b: u8)
        ensures
            b == self.spec_boost_title(),
    {
        self.boost_title
    }

    #[verifier::when_used_as_spec(spec_boost_content)]
    pub fn boost_content(&self) -> (b: u8)
        ensures
            b == self.spec_boost_content(),
    {
        self.boost_content
    }

    /// The factor of a term's priority that depends on the document: the
    /// boosted sum of `tf * norm` over title and content. The priority is
    /// this factor times the term's inverse document frequency.
    pub fn weight(&self, tf_title: u8, tf_content: u8, norm_title: u8, norm_content: u8) -> (w: u32)
        ensures
            w == weight_of(
                self.boost_title(),
                self.boost_content(),
                tf_title,
                tf_content,
                norm_title,
                norm_content,
            ),
    {
        let bt = self.boost_title as u32;
        let bc = self.boost_content as u32;
        let tt = tf_title as u32;
        let tc = tf_content as u32;
        let nt = norm_title as u32;
        let nc = norm_content as u32;
        assert(tt * nt <= 65025 && tt * nt * bt <= 16581375) by (nonlinear_arith)
            requires
                tt <= 255,
                nt <= 255,
                bt <= 255,
        ;
        assert(tc * nc <= 65025 && tc * nc * bc <= 16581375) by (nonlinear_arith)
            requires
                tc <= 255,
                nc <= 255,
                bc <= 255,
        ;
        tt * nt * bt + tc * nc * bc
    }
}

/// Of two documents that differ in the title only, the one with the larger
/// `tf * norm` of the title weighs strictly more whenever the title's boost
/// is positive.
pub proof fn lemma_weight_grows_with_title(
    boost_title: u8,
    boost_content: u8,
    tf_content: u8,
    norm_content: u8,
    tf_low: u8,
    norm_low: u8,
    tf_high: u8,
    norm_high: u8,
)
    requires
        boost_title > 0,
        tf_low * norm_low < tf_high * norm_high,
    ensures
        weight_of(boost_title, boost_content, tf_low, tf_content, norm_low, norm_content)
            < weight_of(boost_title, boost_content, tf_high, tf_content, norm_high, norm_content),
{
    let low = tf_low * norm_low;
    let high = tf_high * norm_high;
    assert(low * boost_title < high * boost_title) by (nonlinear_arith)
        requires
            low < high,
            boost_title > 0,
    ;
}

} // verus!
