//! First-fit free-list allocator.
//!
//! Every memory block (free or allocated) is described by a region header of
//! `HEADER_SIZE` bytes placed at the block's start. The allocator keeps all
//! headers in one maintenance chain, here held as a growable table in chain
//! order: the region at index `i + 1` is the chain successor of the region at
//! index `i`, and the head of the chain is index 0.

use crate::uefi::EfiMemoryDescriptor;
use crate::uefi::EfiMemoryType;
use crate::uefi::MemoryMapHolder;
use vstd::prelude::*;

verus! {

/// Byte footprint of a region header. It must be a power of two, because the
/// carve algorithm's alignment arithmetic assumes it.
pub const HEADER_SIZE: usize = 32;

/// One firmware page, the unit of the memory map and of the address-0 reservation.
pub const PAGE_SIZE: usize = 4096;

/// The smallest power of two that is at least `v`, for `v >= 1`.
pub open spec fn pow2_round(v: int) -> int
    recommends
        v >= 1,
    decreases v,
{
    if v <= 1 {
        1
    } else {
        2 * pow2_round((v + 1) / 2)
    }
}

/// `n` is a power of two: rounding it up to a power of two leaves it unchanged.
pub open spec fn is_power_of_two(n: int) -> bool {
    n >= 1 && pow2_round(n) == n
}

/// `pow2_round(v)` is bounded by `v` from below and by `2 * v` (strictly) from
/// above; together with `lemma_pow2_round_is_pow2` and
/// `lemma_pow2_round_is_least` this says that for every `v >= 1` the rounding
/// yields the unique smallest power of two that is at least `v`.
pub proof fn lemma_pow2_round_bounds(v: int)
    requires
        v >= 1,
    ensures
        pow2_round(v) >= v,
        pow2_round(v) < 2 * v,
        pow2_round(v) == 1 || pow2_round(v) % 2 == 0,
    decreases v,
{
    if v >= 2 {
        let w = (v + 1) / 2;
        lemma_pow2_round_bounds(w);
        let p = pow2_round(w);
        assert(2 * w >= v);
        assert(p < v) by {
            if v % 2 == 1 {
                assert(2 * w == v + 1);
                assert(p <= v);
                assert(p != v);
            } else {
                assert(2 * w == v);
            }
        }
    }
}

/// The rounding always lands on a power of two.
pub proof fn lemma_pow2_round_is_pow2(v: int)
    requires
        v >= 1,
    ensures
        is_power_of_two(pow2_round(v)),
    decreases v,
{
    if v >= 2 {
        let w = (v + 1) / 2;
        lemma_pow2_round_is_pow2(w);
        lemma_pow2_round_bounds(w);
        let p = pow2_round(w);
        assert((2 * p + 1) / 2 == p);
        assert(pow2_round(2 * p) == 2 * pow2_round(p));
    }
}

/// No smaller power of two lies at or above `v`: the rounding is minimal.
pub proof fn lemma_pow2_round_is_least(v: int, q: int)
    requires
        v >= 1,
        is_power_of_two(q),
        q >= v,
    ensures
        pow2_round(v) <= q,
    decreases v,
{
    if v >= 2 {
        assert(q >= 2);
        assert(q % 2 == 0 && q / 2 == pow2_round((q + 1) / 2)) by {
            assert(pow2_round(q) == 2 * pow2_round((q + 1) / 2));
        }
        assert((q + 1) / 2 == q / 2);
        assert(is_power_of_two(q / 2));
        let w = (v + 1) / 2;
        assert(q / 2 >= w);
        lemma_pow2_round_is_least(w, q / 2);
    }
}

/// A larger power of two is a multiple of a smaller one.
pub proof fn lemma_pow2_divides(a: int, b: int)
    requires
        is_power_of_two(a),
        is_power_of_two(b),
        a <= b,
    ensures
        b % a == 0,
    decreases a,
{
    if a == 1 {
        assert(b % 1 == 0);
    } else {
        assert(a % 2 == 0 && a / 2 == pow2_round((a + 1) / 2)) by {
            assert(pow2_round(a) == 2 * pow2_round((a + 1) / 2));
        }
        assert((a + 1) / 2 == a / 2);
        assert(is_power_of_two(a / 2));
        assert(b % 2 == 0 && b / 2 == pow2_round((b + 1) / 2)) by {
            assert(pow2_round(b) == 2 * pow2_round((b + 1) / 2));
        }
        assert((b + 1) / 2 == b / 2);
        assert(is_power_of_two(b / 2));
        lemma_pow2_divides(a / 2, b / 2);
        vstd::arithmetic::div_mod::lemma_truncate_middle(b / 2, 2, a / 2);
        assert(2 * (b / 2) == b);
        assert(2 * (a / 2) == a);
        assert(b % a == 2 * ((b / 2) % (a / 2)));
    }
}

/// Strictly ordered powers of two are at least a factor of two apart.
pub proof fn lemma_pow2_gap(p: int, q: int)
    requires
        is_power_of_two(p),
        is_power_of_two(q),
        p < q,
    ensures
        2 * p <= q,
{
    lemma_pow2_divides(p, q);
    vstd::arithmetic::div_mod::lemma_fundamental_div_mod(q, p);
    let k = q / p;
    assert(q == p * k);
    if k <= 0 {
        assert(p * k <= 0) by (nonlinear_arith)
            requires
                p > 0,
                k <= 0,
        ;
    }
    if k == 1 {
        assert(q == p * 1 == p);
    }
    vstd::arithmetic::mul::lemma_mul_inequality(2, k, p);
    assert(2 * p == p * 2) by (nonlinear_arith);
    assert(k * p == p * k) by (nonlinear_arith);
}

/// Rounds `v` up to the nearest power of two, or reports that no such value
/// fits the machine word: for `v == 0` no result is representable at all, and
/// for very large `v` the next power of two overflows.
pub fn round_up_to_nearest_pow2(v: usize) -> (r: Result<usize, &'static str>)
    ensures
        r is Ok <==> (1 <= v && pow2_round(v as int) <= usize::MAX),
        r matches Ok(p) ==> p as int == pow2_round(v as int),
        r matches Err(e) ==> e@ == "Out of range"@,
{
    if v == 0 {
        return Err("Out of range");
    }
    let mut p: usize = 1;
    proof {
        lemma_pow2_round_bounds(v as int);
    }
    while p < v
        invariant
            1 <= v,
            is_power_of_two(p as int),
            p as int <= pow2_round(v as int),
        decreases 2 * (v as int) - p,
    {
        if p > usize::MAX / 2 {
            proof {
                lemma_pow2_round_is_pow2(v as int);
                lemma_pow2_round_bounds(v as int);
                lemma_pow2_gap(p as int, pow2_round(v as int));
            }
            return Err("Out of range");
        }
        proof {
            lemma_pow2_round_is_pow2(v as int);
            lemma_pow2_round_bounds(v as int);
            lemma_pow2_gap(p as int, pow2_round(v as int));
            assert(pow2_round(2 * p as int) == 2 * pow2_round(p as int)) by {
                assert((2 * p as int + 1) / 2 == p as int);
            }
        }
        p = p * 2;
    }
    proof {
        lemma_pow2_round_is_least(v as int, p as int);
    }
    Ok(p)
}

/// A region header: the record that sits in the first `HEADER_SIZE` bytes of
/// every memory block and self-describes it. `addr` is the byte address at
/// which the header begins; the block's extent is `[addr, addr + size)`, and
/// for an allocated block the payload handed to the caller starts at
/// `addr + HEADER_SIZE`.
#[derive(Clone, Copy, PartialEq, Eq, Structural, Debug)]
pub struct Header {
    pub addr: usize,
    pub size: usize,
    pub is_allocated: bool,
}

impl Header {
    /// One-past-the-end address of the block.
    pub open spec fn end(self) -> int {
        self.addr + self.size
    }

    /// A header is well formed when its block holds at least the header
    /// itself, fits the address space, and sits on a `HEADER_SIZE` boundary
    /// with a `HEADER_SIZE`-granular extent (the carve arithmetic relies on
    /// that granularity).
    pub open spec fn wf(self) -> bool {
        &&& HEADER_SIZE <= self.size
        &&& self.addr + self.size <= usize::MAX
        &&& self.addr as int % (HEADER_SIZE as int) == 0
        &&& self.size as int % (HEADER_SIZE as int) == 0
    }

    /// The blocks of the two headers occupy disjoint address ranges.
    pub open spec fn disjoint(self, other: Header) -> bool {
        self.end() <= other.addr || other.end() <= self.addr
    }

    /// True iff this block is free and large enough to carve `size` bytes at
    /// alignment `align` out of it, by the deliberately conservative bound
    /// `size + 2 * HEADER_SIZE * align` (room for up to two fresh headers,
    /// proportional to the alignment).
    pub fn can_provide(&self, size: usize, align: usize) -> (r: bool)
        ensures
            r == (self.size as int >= size as int + 2 * (HEADER_SIZE as int) * (align as int)),
    {
        proof {
            vstd::arithmetic::mul::lemma_mul_nonnegative(2 * (HEADER_SIZE as int), align as int);
        }
        if self.size < size {
            false
        } else {
            let rest = self.size - size;
            let quot = rest / (2 * HEADER_SIZE);
            proof {
                vstd::arithmetic::div_mod::lemma_fundamental_div_mod(
                    rest as int,
                    2 * (HEADER_SIZE as int),
                );
                vstd::arithmetic::div_mod::lemma_mod_division_less_than_divisor(
                    rest as int,
                    2 * (HEADER_SIZE as int),
                );
                if quot as int >= align as int {
                    vstd::arithmetic::mul::lemma_mul_inequality(
                        align as int,
                        quot as int,
                        2 * (HEADER_SIZE as int),
                    );
                } else {
                    vstd::arithmetic::mul::lemma_mul_inequality(
                        quot as int + 1,
                        align as int,
                        2 * (HEADER_SIZE as int),
                    );
                }
            }
            quot >= align
        }
    }

    /// Whether the block is currently handed out.
    pub fn is_allocated(&self) -> (r: bool)
        ensures
            r == self.is_allocated,
    {
        self.is_allocated
    }

    /// One-past-the-end address of the block.
    pub fn end_addr(&self) -> (r: usize)
        requires
            self.addr + self.size <= usize::MAX,
        ensures
            r as int == self.end(),
    {
        self.addr + self.size
    }

}

/// The chain invariant: every region is well formed and no two regions'
/// address ranges overlap. This is the central structural invariant that
/// every carve and every free must preserve.
pub open spec fn chain_wf(chain: Seq<Header>) -> bool {
    &&& forall|i: int| 0 <= i < chain.len() ==> (#[trigger] chain[i]).wf()
    &&& forall|i: int, j: int|
        #![trigger chain[i], chain[j]]
        0 <= i < j < chain.len() ==> chain[i].disjoint(chain[j])
}

/// The request size can be normalized: it is nonzero and its power-of-two
/// rounding is representable.
pub open spec fn size_ok(size: usize) -> bool {
    1 <= size && pow2_round(size as int) <= usize::MAX
}

/// Normalized request size: the power-of-two rounding, raised to at least
/// `HEADER_SIZE`.
pub open spec fn norm_size(size: usize) -> int {
    if pow2_round(size as int) < HEADER_SIZE as int {
        HEADER_SIZE as int
    } else {
        pow2_round(size as int)
    }
}

/// Normalized request alignment: raised to at least `HEADER_SIZE`.
pub open spec fn norm_align(align: usize) -> int {
    if (align as int) < HEADER_SIZE as int {
        HEADER_SIZE as int
    } else {
        align as int
    }
}

/// The carve operation on this header succeeds for the request: the block is
/// free and passes the conservative sufficiency bound for the normalized
/// request.
pub open spec fn can_satisfy(h: Header, size: usize, align: usize) -> bool {
    &&& size_ok(size)
    &&& !h.is_allocated
    &&& h.size as int >= norm_size(size) + 2 * (HEADER_SIZE as int) * norm_align(align)
}

/// Bump-down carve address: the payload candidate is taken from the top of
/// the block — end address minus normalized size, rounded *down* to the
/// normalized alignment.
pub open spec fn carve_addr(h: Header, size: usize, align: usize) -> int {
    let cand = h.end() - norm_size(size);
    cand - cand % norm_align(align)
}

/// The headers that replace a carved block: the shrunk original (still free),
/// the new allocated block, and — when the allocated block does not reach the
/// original end — a free padding block covering the high-address gap.
pub open spec fn carved_headers(h: Header, size: usize, align: usize) -> Seq<Header> {
    let a = carve_addr(h, size, align);
    let ns = norm_size(size);
    let shrunk = Header {
        addr: h.addr,
        size: (a - HEADER_SIZE - h.addr) as usize,
        is_allocated: false,
    };
    let carved = Header {
        addr: (a - HEADER_SIZE) as usize,
        size: (ns + HEADER_SIZE) as usize,
        is_allocated: true,
    };
    if a + ns == h.end() {
        seq![shrunk, carved]
    } else {
        seq![
            shrunk,
            carved,
            Header { addr: (a + ns) as usize, size: (h.end() - (a + ns)) as usize, is_allocated: false },
        ]
    }
}

/// The chain after a successful carve at index `i`: the carved block's
/// replacements are threaded in place of the original region.
pub open spec fn chain_after_carve(chain: Seq<Header>, i: int, size: usize, align: usize) -> Seq<
    Header,
> {
    chain.take(i) + carved_headers(chain[i], size, align) + chain.skip(i + 1)
}

/// `HEADER_SIZE` is a power of two.
proof fn lemma_header_size_pow2()
    ensures
        is_power_of_two(HEADER_SIZE as int),
{
    reveal_with_fuel(pow2_round, 7);
    assert(pow2_round(32) == 32);
}

/// Divisibility is transitive: a multiple of `d` is a multiple of every
/// divisor `e` of `d`.
proof fn lemma_divides_transitive(x: int, d: int, e: int)
    requires
        d > 0,
        e > 0,
        x % d == 0,
        d % e == 0,
    ensures
        x % e == 0,
{
    vstd::arithmetic::div_mod::lemma_fundamental_div_mod(x, d);
    vstd::arithmetic::div_mod::lemma_fundamental_div_mod(d, e);
    let qx = x / d;
    let qd = d / e;
    assert(x == (e * qd) * qx);
    assert((e * qd) * qx == (qd * qx) * e) by (nonlinear_arith);
    vstd::arithmetic::div_mod::lemma_mod_multiples_basic(qd * qx, e);
}

/// The remainder of one `HEADER_SIZE` multiple modulo another is itself a
/// `HEADER_SIZE` multiple.
proof fn lemma_mod_of_multiples(x: int, d: int)
    requires
        x >= 0,
        d > 0,
        x % (HEADER_SIZE as int) == 0,
        d % (HEADER_SIZE as int) == 0,
    ensures
        (x % d) % (HEADER_SIZE as int) == 0,
{
    vstd::arithmetic::div_mod::lemma_fundamental_div_mod(x, HEADER_SIZE as int);
    vstd::arithmetic::div_mod::lemma_fundamental_div_mod(d, HEADER_SIZE as int);
    let a = x / 32;
    let b = d / 32;
    assert(x == 32 * a);
    assert(d == 32 * b);
    assert(a >= 0) by {
        vstd::arithmetic::div_mod::lemma_div_pos_is_pos(x, 32);
    }
    assert(b > 0) by {
        if b <= 0 {
            assert(32 * b <= 0) by (nonlinear_arith)
                requires
                    b <= 0,
            ;
        }
    }
    vstd::arithmetic::div_mod::lemma_truncate_middle(a, 32, b);
    assert((32 * a) % (32 * b) == 32 * (a % b));
    vstd::arithmetic::div_mod::lemma_mod_multiples_basic(a % b, 32);
    assert((32 * (a % b)) % 32 == ((a % b) * 32) % 32) by (nonlinear_arith);
}

/// Facts about the normalized request: both the size and the alignment are
/// powers of two, at least `HEADER_SIZE`, and the alignment divides the
/// normalized alignment.
pub proof fn lemma_norm_props(size: usize, align: usize)
    requires
        size_ok(size),
        is_power_of_two(align as int),
    ensures
        is_power_of_two(norm_size(size)),
        is_power_of_two(norm_align(align)),
        HEADER_SIZE as int <= norm_size(size),
        HEADER_SIZE as int <= norm_align(align),
        norm_size(size) % (HEADER_SIZE as int) == 0,
        norm_align(align) % (HEADER_SIZE as int) == 0,
        norm_align(align) % (align as int) == 0,
        size as int <= norm_size(size),
        norm_size(size) <= usize::MAX || norm_size(size) == HEADER_SIZE as int,
{
    lemma_header_size_pow2();
    lemma_pow2_round_is_pow2(size as int);
    lemma_pow2_round_bounds(size as int);
    if pow2_round(size as int) < HEADER_SIZE as int {
        assert(norm_size(size) == HEADER_SIZE as int);
    } else {
        lemma_pow2_divides(HEADER_SIZE as int, norm_size(size));
    }
    assert(norm_size(size) % (HEADER_SIZE as int) == 0) by {
        if norm_size(size) == HEADER_SIZE as int {
            vstd::arithmetic::div_mod::lemma_mod_self_0(HEADER_SIZE as int);
        }
    }
    if (align as int) < HEADER_SIZE as int {
        assert(norm_align(align) == HEADER_SIZE as int);
        lemma_pow2_divides(align as int, HEADER_SIZE as int);
        vstd::arithmetic::div_mod::lemma_mod_self_0(HEADER_SIZE as int);
    } else {
        lemma_pow2_divides(HEADER_SIZE as int, align as int);
        vstd::arithmetic::div_mod::lemma_mod_self_0(align as int);
    }
}

/// Placement facts for a successful carve: the carve address honours both the
/// normalized and the requested alignment, leaves at least a minimal free
/// block below it, stays inside the original block, and leaves a gap above it
/// that is `HEADER_SIZE`-granular and smaller than the normalized alignment.
pub proof fn lemma_carve_props(h: Header, size: usize, align: usize)
    requires
        h.wf(),
        is_power_of_two(align as int),
        can_satisfy(h, size, align),
    ensures
        ({
            let a = carve_addr(h, size, align);
            let ns = norm_size(size);
            let na = norm_align(align);
            &&& a % na == 0
            &&& a % (align as int) == 0
            &&& a % (HEADER_SIZE as int) == 0
            &&& h.addr + 2 * HEADER_SIZE <= a
            &&& a + ns <= h.end()
            &&& (h.end() - (a + ns)) % (HEADER_SIZE as int) == 0
            &&& h.end() - (a + ns) < na
        }),
{
    lemma_norm_props(size, align);
    let a = carve_addr(h, size, align);
    let ns = norm_size(size);
    let na = norm_align(align);
    let end = h.end();
    let cand = end - ns;
    assert(2 * (HEADER_SIZE as int) * na >= 2 * (HEADER_SIZE as int) * (HEADER_SIZE as int))
        by (nonlinear_arith)
        requires
            na >= HEADER_SIZE as int,
    ;
    assert(cand >= h.addr + 2 * (HEADER_SIZE as int) * na - ns + ns - ns);
    assert(cand >= h.addr + 2 * (HEADER_SIZE as int) * na);
    let r = cand % na;
    vstd::arithmetic::div_mod::lemma_mod_division_less_than_divisor(cand, na);
    assert(a == cand - r);
    assert(a % na == 0) by {
        vstd::arithmetic::div_mod::lemma_fundamental_div_mod(cand, na);
        assert(a == na * (cand / na));
        assert(na * (cand / na) == (cand / na) * na) by (nonlinear_arith);
        vstd::arithmetic::div_mod::lemma_mod_multiples_basic(cand / na, na);
    }
    assert(a % (align as int) == 0) by {
        lemma_divides_transitive(a, na, align as int);
    }
    assert(a % (HEADER_SIZE as int) == 0) by {
        lemma_divides_transitive(a, na, HEADER_SIZE as int);
    }
    assert(h.addr + 2 * HEADER_SIZE <= a) by {
        assert(a > cand - na);
        assert(2 * (HEADER_SIZE as int) * na - na >= 3 * (HEADER_SIZE as int)) by (nonlinear_arith)
            requires
                na >= HEADER_SIZE as int,
                HEADER_SIZE == 32,
        ;
    }
    assert(end % (HEADER_SIZE as int) == 0) by {
        vstd::arithmetic::div_mod::lemma_add_mod_noop(h.addr as int, h.size as int, HEADER_SIZE as int);
    }
    assert(cand % (HEADER_SIZE as int) == 0) by {
        vstd::arithmetic::div_mod::lemma_sub_mod_noop(end, ns, HEADER_SIZE as int);
    }
    assert(r % (HEADER_SIZE as int) == 0) by {
        lemma_mod_of_multiples(cand, na);
    }
    assert((end - (a + ns)) % (HEADER_SIZE as int) == 0) by {
        assert(end - (a + ns) == r);
    }
}

/// Structural facts about the carve replacements: two or three headers, all
/// well formed, all within the original block's extent, pairwise disjoint,
/// with the shrunk free block first and the allocated block second.
pub proof fn lemma_carved_headers_wf(h: Header, size: usize, align: usize)
    requires
        h.wf(),
        is_power_of_two(align as int),
        can_satisfy(h, size, align),
    ensures
        ({
            let c = carved_headers(h, size, align);
            &&& 2 <= c.len() <= 3
            &&& forall|k: int| 0 <= k < c.len() ==> (#[trigger] c[k]).wf()
            &&& forall|k: int|
                0 <= k < c.len() ==> h.addr <= (#[trigger] c[k]).addr && c[k].end() <= h.end()
            &&& forall|k: int, m: int|
                #![trigger c[k], c[m]]
                0 <= k < m < c.len() ==> c[k].disjoint(c[m])
            &&& c[0].addr == h.addr
            &&& !c[0].is_allocated
            &&& c[1].is_allocated
            &&& c[1].addr + HEADER_SIZE == carve_addr(h, size, align)
        }),
{
    lemma_norm_props(size, align);
    lemma_carve_props(h, size, align);
    let a = carve_addr(h, size, align);
    let ns = norm_size(size);
    let na = norm_align(align);
    let c = carved_headers(h, size, align);
    let gap = h.end() - (a + ns);
    assert(gap == 0 || gap >= HEADER_SIZE as int) by {
        if gap != 0 {
            vstd::arithmetic::div_mod::lemma_mod_is_zero(gap as nat, HEADER_SIZE as nat);
        }
    }
    assert(c[0].wf()) by {
        vstd::arithmetic::div_mod::lemma_sub_mod_noop(
            a - HEADER_SIZE as int,
            h.addr as int,
            HEADER_SIZE as int,
        );
        vstd::arithmetic::div_mod::lemma_sub_mod_noop(a, HEADER_SIZE as int, HEADER_SIZE as int);
        vstd::arithmetic::div_mod::lemma_mod_self_0(HEADER_SIZE as int);
    }
    assert(c[1].wf()) by {
        vstd::arithmetic::div_mod::lemma_sub_mod_noop(a, HEADER_SIZE as int, HEADER_SIZE as int);
        vstd::arithmetic::div_mod::lemma_add_mod_noop(ns, HEADER_SIZE as int, HEADER_SIZE as int);
        vstd::arithmetic::div_mod::lemma_mod_self_0(HEADER_SIZE as int);
    }
    if c.len() == 3 {
        assert(c[2].wf()) by {
            vstd::arithmetic::div_mod::lemma_add_mod_noop(a, ns, HEADER_SIZE as int);
            vstd::arithmetic::div_mod::lemma_sub_mod_noop(h.end(), a + ns, HEADER_SIZE as int);
        }
    }
}

/// A successful carve preserves the chain invariant: the replacements stay
/// inside the original block's extent, so they collide neither with each
/// other nor with any other region.
pub proof fn lemma_chain_after_carve_wf(chain: Seq<Header>, i: int, size: usize, align: usize)
    requires
        chain_wf(chain),
        0 <= i < chain.len(),
        is_power_of_two(align as int),
        can_satisfy(chain[i], size, align),
    ensures
        chain_wf(chain_after_carve(chain, i, size, align)),
        chain_after_carve(chain, i, size, align).len() == chain.len() + carved_headers(
            chain[i],
            size,
            align,
        ).len() - 1,
{
    let h = chain[i];
    lemma_carved_headers_wf(h, size, align);
    let c = carved_headers(h, size, align);
    let n = c.len() as int;
    let after = chain_after_carve(chain, i, size, align);
    assert(after.len() == chain.len() + n - 1);
    assert forall|k: int| 0 <= k < after.len() implies (#[trigger] after[k]).wf() by {
        if k < i {
            assert(after[k] == chain[k]);
        } else if k < i + n {
            assert(after[k] == c[k - i]);
        } else {
            assert(after[k] == chain[k - n + 1]);
        }
    }
    assert forall|k: int, m: int|
        #![trigger after[k], after[m]]
        0 <= k < m < after.len() implies after[k].disjoint(after[m]) by {
        let ok = if k < i {
            chain[k]
        } else if k < i + n {
            chain[i]
        } else {
            chain[k - n + 1]
        };
        let om = if m < i {
            chain[m]
        } else if m < i + n {
            chain[i]
        } else {
            chain[m - n + 1]
        };
        if i <= k < i + n {
            assert(after[k] == c[k - i]);
            assert(h.addr <= after[k].addr && after[k].end() <= h.end());
        }
        if i <= m < i + n {
            assert(after[m] == c[m - i]);
            assert(h.addr <= after[m].addr && after[m].end() <= h.end());
        }
        if i <= k < i + n && i <= m < i + n {
            assert(c[k - i].disjoint(c[m - i]));
        } else {
            assert(ok.disjoint(om) || ok == om) by {
                let ik = if k < i {
                    k
                } else if k < i + n {
                    i
                } else {
                    k - n + 1
                };
                let im = if m < i {
                    m
                } else if m < i + n {
                    i
                } else {
                    m - n + 1
                };
                assert(0 <= ik <= im < chain.len());
                assert(ok == chain[ik] && om == chain[im]);
                if ik < im {
                    assert(chain[ik].disjoint(chain[im]));
                }
            }
        }
    }
}

/// `h` with its allocation flag cleared.
pub open spec fn freed(h: Header) -> Header {
    Header { is_allocated: false, ..h }
}

/// Region `j` of the chain is a live allocation whose payload starts at `ptr`.
pub open spec fn live_at(chain: Seq<Header>, j: int, ptr: usize) -> bool {
    &&& chain[j].is_allocated
    &&& chain[j].addr + HEADER_SIZE == ptr
}

/// `ptr` is a payload pointer previously handed out and not yet freed.
pub open spec fn is_live_payload(chain: Seq<Header>, ptr: usize) -> bool {
    exists|j: int| 0 <= j < chain.len() && #[trigger] live_at(chain, j, ptr)
}

/// At most one region owns a given live payload pointer: two distinct regions
/// would have to overlap on the `HEADER_SIZE` bytes below `ptr`.
pub proof fn lemma_live_payload_unique(chain: Seq<Header>, ptr: usize, j1: int, j2: int)
    requires
        chain_wf(chain),
        0 <= j1 < chain.len(),
        0 <= j2 < chain.len(),
        live_at(chain, j1, ptr),
        live_at(chain, j2, ptr),
    ensures
        j1 == j2,
{
    if j1 != j2 {
        assert(chain[j1].disjoint(chain[j2]));
    }
}

/// The first-fit allocator: the externally visible allocate/deallocate
/// contract over one maintenance chain of regions, rooted at the head slot.
/// Access must be strictly serialized: the methods take the allocator
/// exclusively, and no two calls may ever run concurrently.
pub struct FirstFitAllocator {
    regions: Vec<Header>,
}

impl View for FirstFitAllocator {
    type V = Seq<Header>;

    closed spec fn view(&self) -> Seq<Header> {
        self.regions@
    }
}

impl FirstFitAllocator {
    /// The allocator invariant: its chain is well formed.
    pub open spec fn wf(&self) -> bool {
        chain_wf(self@)
    }

    /// A fresh allocator with an empty chain.
    pub fn new() -> (r: FirstFitAllocator)
        ensures
            r.wf(),
            r@ =~= Seq::<Header>::empty(),
    {
        FirstFitAllocator { regions: Vec::new() }
    }

    /// Number of regions currently in the chain.
    pub fn region_count(&self) -> (r: usize)
        ensures
            r == self@.len(),
    {
        self.regions.len()
    }

    /// The region at chain position `i` (position 0 is the chain head).
    pub fn region_at(&self, i: usize) -> (r: Header)
        requires
            i < self@.len(),
        ensures
            r == self@[i as int],
    {
        self.regions[i]
    }

    /// The carve operation on the region at chain position `i`: tries to cut
    /// a block for the normalized request out of the top of that region,
    /// threading the remainder(s) back into the chain. Returns the payload
    /// address on success and `None` (leaving the chain untouched) when the
    /// region is allocated, too small, or the size cannot be normalized.
    fn provide(&mut self, i: usize, size: usize, align: usize) -> (r: Option<usize>)
        requires
            old(self).wf(),
            i < old(self)@.len(),
            is_power_of_two(align as int),
        ensures
            final(self).wf(),
            r is Some <==> can_satisfy(old(self)@[i as int], size, align),
            r is None ==> final(self)@ == old(self)@,
            r matches Some(p) ==> p as int == carve_addr(old(self)@[i as int], size, align)
                && final(self)@ =~= chain_after_carve(old(self)@, i as int, size, align),
    {
        let n = self.regions.len();
        let h = self.regions[i];
        let rounded = match round_up_to_nearest_pow2(size) {
            Ok(s) => s,
            Err(_) => {
                return None;
            },
        };
        let ns = if rounded < HEADER_SIZE {
            HEADER_SIZE
        } else {
            rounded
        };
        let na = if align < HEADER_SIZE {
            HEADER_SIZE
        } else {
            align
        };
        if h.is_allocated() || !h.can_provide(ns, na) {
            return None;
        }
        proof {
            assert(ns as int == norm_size(size));
            assert(na as int == norm_align(align));
            assert(can_satisfy(h, size, align));
            lemma_norm_props(size, align);
            lemma_carve_props(h, size, align);
            lemma_carved_headers_wf(h, size, align);
            lemma_chain_after_carve_wf(old(self)@, i as int, size, align);
        }
        let end = h.addr + h.size;
        let cand = end - ns;
        let a = cand - cand % na;
        let shrunk = Header { addr: h.addr, size: a - HEADER_SIZE - h.addr, is_allocated: false };
        let carved = Header { addr: a - HEADER_SIZE, size: ns + HEADER_SIZE, is_allocated: true };
        self.regions.set(i, shrunk);
        self.regions.insert(i + 1, carved);
        if a + ns < end {
            // The chain has grown by one block, so position i + 2 is in range.
            let n_after = self.regions.len();
            proof {
                assert(n_after == n + 1);
            }
            let padding = Header { addr: a + ns, size: end - (a + ns), is_allocated: false };
            self.regions.insert(i + 2, padding);
        }
        proof {
            assert(self@ =~= chain_after_carve(old(self)@, i as int, size, align));
        }
        Some(a)
    }

    /// The externally visible allocation operation: walks the chain from the
    /// head and returns the payload address carved from the first region able
    /// to satisfy the request (first-fit, no best-fit comparison), or `None`
    /// when the chain is exhausted. A `None` is an expected, recoverable
    /// outcome that the caller must check. Every returned address is nonzero
    /// and a multiple of `align`.
    pub fn alloc_with_options(&mut self, size: usize, align: usize) -> (r: Option<usize>)
        requires
            old(self).wf(),
            is_power_of_two(align as int),
        ensures
            final(self).wf(),
            r is Some <==> exists|i: int|
                0 <= i < old(self)@.len() && can_satisfy(#[trigger] old(self)@[i], size, align),
            r is None ==> final(self)@ == old(self)@,
            r matches Some(p) ==> exists|i: int|
                {
                    &&& 0 <= i < old(self)@.len()
                    &&& can_satisfy(#[trigger] old(self)@[i], size, align)
                    &&& forall|j: int|
                        0 <= j < i ==> !can_satisfy(#[trigger] old(self)@[j], size, align)
                    &&& p as int == carve_addr(old(self)@[i], size, align)
                    &&& final(self)@ =~= chain_after_carve(old(self)@, i, size, align)
                },
            r matches Some(p) ==> p > 0 && p as int % (align as int) == 0,
            r matches Some(p) ==> is_live_payload(final(self)@, p),
    {
        let ghost chain0 = self@;
        let mut i: usize = 0;
        let n = self.regions.len();
        while i < n
            invariant
                self@ == chain0,
                chain0 == old(self)@,
                chain_wf(chain0),
                is_power_of_two(align as int),
                n == chain0.len(),
                i <= n,
                forall|j: int| 0 <= j < i ==> !can_satisfy(#[trigger] chain0[j], size, align),
            decreases n - i,
        {
            let r = self.provide(i, size, align);
            match r {
                Some(p) => {
                    proof {
                        lemma_carve_props(chain0[i as int], size, align);
                        lemma_norm_props(size, align);
                        lemma_alloc_result_is_live(chain0, i as int, size, align);
                    }
                    return Some(p);
                },
                None => {
                    i = i + 1;
                },
            }
        }
        None
    }

    /// The externally visible deallocation operation: recovers the owning
    /// region of a previously returned payload pointer by the fixed
    /// back-offset of `HEADER_SIZE` bytes and clears its allocation flag.
    /// The block is never structurally destroyed, and no coalescing happens:
    /// the region simply becomes eligible for carving again. Passing anything
    /// but a live payload pointer of this allocator is a caller contract
    /// violation, excluded here by precondition.
    pub fn deallocate(&mut self, ptr: usize)
        requires
            old(self).wf(),
            is_live_payload(old(self)@, ptr),
        ensures
            final(self).wf(),
            forall|j: int|
                0 <= j < old(self)@.len() && #[trigger] live_at(old(self)@, j, ptr)
                    ==> final(self)@ =~= old(self)@.update(j, freed(old(self)@[j])),
    {
        let ghost chain0 = self@;
        let n = self.regions.len();
        let mut i: usize = 0;
        while i < n
            invariant
                self@ == chain0,
                chain0 == old(self)@,
                chain_wf(chain0),
                is_live_payload(chain0, ptr),
                n == chain0.len(),
                i <= n,
                forall|j: int| 0 <= j < i ==> !#[trigger] live_at(chain0, j, ptr),
            decreases n - i,
        {
            let h = self.regions[i];
            if h.is_allocated() && h.addr + HEADER_SIZE == ptr {
                let cleared = Header { addr: h.addr, size: h.size, is_allocated: false };
                self.regions.set(i, cleared);
                proof {
                    assert(live_at(chain0, i as int, ptr));
                    assert(freed(chain0[i as int]) == cleared);
                    assert forall|j: int|
                        0 <= j < chain0.len() && #[trigger] live_at(chain0, j, ptr)
                            implies self@ =~= chain0.update(j, freed(chain0[j])) by {
                        lemma_live_payload_unique(chain0, ptr, j, i as int);
                    }
                    assert forall|k: int| 0 <= k < self@.len() implies (#[trigger] self@[k]).wf() by {
                        assert(chain0[k].wf());
                    }
                    assert forall|k: int, m: int|
                        #![trigger self@[k], self@[m]]
                        0 <= k < m < self@.len() implies self@[k].disjoint(self@[m]) by {
                        assert(chain0[k].disjoint(chain0[m]));
                    }
                }
                return ;
            }
            i = i + 1;
        }
        proof {
            let j = choose|j: int| 0 <= j < chain0.len() && #[trigger] live_at(chain0, j, ptr);
            assert(!live_at(chain0, j, ptr));
        }
        unreached()
    }

    /// Bulk initialization from a firmware memory map: walks the descriptors
    /// in order and registers every usable one as a fresh free region. All
    /// other classifications are skipped.
    pub fn init_with_mmap(&mut self, memory_map: &MemoryMapHolder)
        requires
            old(self).wf(),
            old(self)@.len() == 0,
            mmap_ok(memory_map@),
        ensures
            final(self).wf(),
            final(self)@ =~= init_chain(memory_map@),
    {
        let n = memory_map.len();
        let mut k: usize = 0;
        while k < n
            invariant
                self.wf(),
                mmap_ok(memory_map@),
                n == memory_map@.len(),
                k <= n,
                self@ =~= init_chain(memory_map@.take(k as int)),
                forall|m: int|
                    0 <= m < self@.len() ==> region_from(memory_map@, k as int, #[trigger] self@[m]),
            decreases n - k,
        {
            let ghost mm = memory_map@;
            let ghost pre = self@;
            let d = memory_map.descriptor_at(k);
            if d.memory_type() == EfiMemoryType::CONVENTIONAL_MEMORY {
                proof {
                    assert(usable(mm[k as int]));
                    assert(descriptor_ok(mm[k as int]));
                    if adj_size(mm[k as int]) > PAGE_SIZE as int {
                        lemma_region_of_in_raw_range(mm[k as int]);
                        assert forall|m: int| 0 <= m < pre.len() implies region_of(*d).disjoint(
                            #[trigger] pre[m],
                        ) by {
                            assert(region_from(mm, k as int, pre[m]));
                            let j = choose|j: int|
                                0 <= j < k && usable(mm[j]) && adj_size(mm[j]) > PAGE_SIZE as int
                                    && pre[m] == #[trigger] region_of(mm[j]);
                            assert(descriptors_disjoint(mm[j], mm[k as int]));
                            lemma_region_of_in_raw_range(mm[j]);
                        }
                    }
                }
                self.add_free_from_descriptor(d);
            }
            proof {
                assert(mm.take(k + 1).drop_last() =~= mm.take(k as int));
                assert(mm.take(k + 1).last() == mm[k as int]);
                assert(self@ =~= init_chain(mm.take(k + 1)));
                assert forall|m: int| 0 <= m < self@.len() implies region_from(
                    mm,
                    k + 1,
                    #[trigger] self@[m],
                ) by {
                    if usable(mm[k as int]) && adj_size(mm[k as int]) > PAGE_SIZE as int {
                        if m == 0 {
                            assert(self@[m] == region_of(mm[k as int]));
                        } else {
                            assert(self@[m] == pre[m - 1]);
                            assert(region_from(mm, k as int, pre[m - 1]));
                            let j = choose|j: int|
                                0 <= j < k && usable(mm[j]) && adj_size(mm[j]) > PAGE_SIZE as int
                                    && pre[m - 1] == #[trigger] region_of(mm[j]);
                            assert(self@[m] == region_of(mm[j]));
                        }
                    } else {
                        assert(self@[m] == pre[m]);
                        assert(region_from(mm, k as int, pre[m]));
                        let j = choose|j: int|
                            0 <= j < k && usable(mm[j]) && adj_size(mm[j]) > PAGE_SIZE as int
                                && pre[m] == #[trigger] region_of(mm[j]);
                        assert(self@[m] == region_of(mm[j]));
                    }
                }
            }
            k = k + 1;
        }
        proof {
            assert(memory_map@.take(n as int) =~= memory_map@);
        }
    }

    /// Registers the free region described by one usable descriptor: adjusts
    /// a region starting at physical address 0 so that its first page is
    /// never handed out, drops regions of at most one page, and prepends the
    /// survivor to the chain head.
    fn add_free_from_descriptor(&mut self, desc: &EfiMemoryDescriptor)
        requires
            old(self).wf(),
            descriptor_ok(*desc),
            adj_size(*desc) > PAGE_SIZE as int ==> forall|m: int|
                0 <= m < old(self)@.len() ==> region_of(*desc).disjoint(#[trigger] old(self)@[m]),
        ensures
            final(self).wf(),
            adj_size(*desc) > PAGE_SIZE as int ==> final(self)@ =~= seq![region_of(*desc)] + old(
                self,
            )@,
            adj_size(*desc) <= PAGE_SIZE as int ==> final(self)@ == old(self)@,
    {
        proof {
            vstd::arithmetic::mul::lemma_mul_nonnegative(
                desc.number_of_pages as int,
                PAGE_SIZE as int,
            );
            assert(desc.number_of_pages as int <= desc.number_of_pages as int * (PAGE_SIZE as int))
                by (nonlinear_arith)
                requires
                    desc.number_of_pages as int >= 0,
            ;
        }
        let mut start_addr: usize = desc.physical_start() as usize;
        let pages: usize = desc.number_of_pages() as usize;
        let mut size: usize = pages * PAGE_SIZE;
        if start_addr == 0 {
            start_addr = PAGE_SIZE;
            size = if size <= PAGE_SIZE {
                0
            } else {
                size - PAGE_SIZE
            };
        }
        if size <= PAGE_SIZE {
            return ;
        }
        let header = Header { addr: start_addr, size, is_allocated: false };
        proof {
            lemma_region_of_wf(*desc);
            assert(header == region_of(*desc));
        }
        self.regions.insert(0, header);
        proof {
            let after = self@;
            let pre = old(self)@;
            assert(after =~= seq![region_of(*desc)] + pre);
            assert forall|x: int| 0 <= x < after.len() implies (#[trigger] after[x]).wf() by {
                if x > 0 {
                    assert(after[x] == pre[x - 1]);
                }
            }
            assert forall|x: int, y: int|
                #![trigger after[x], after[y]]
                0 <= x < y < after.len() implies after[x].disjoint(after[y]) by {
                if x == 0 {
                    assert(after[y] == pre[y - 1]);
                    assert(region_of(*desc).disjoint(pre[y - 1]));
                } else {
                    assert(after[x] == pre[x - 1]);
                    assert(after[y] == pre[y - 1]);
                    assert(pre[x - 1].disjoint(pre[y - 1]));
                }
            }
        }
    }
}

/// The descriptor's classification is general-purpose usable memory.
pub open spec fn usable(d: EfiMemoryDescriptor) -> bool {
    d.memory_type == EfiMemoryType::CONVENTIONAL_MEMORY
}

/// The descriptor's raw byte extent.
pub open spec fn raw_size(d: EfiMemoryDescriptor) -> int {
    d.number_of_pages as int * (PAGE_SIZE as int)
}

/// The start address after the address-0 reservation: a region starting at
/// physical address 0 gives up its first page, so that address 0 is never a
/// valid allocation.
pub open spec fn adj_start(d: EfiMemoryDescriptor) -> int {
    if d.physical_start == 0 {
        PAGE_SIZE as int
    } else {
        d.physical_start as int
    }
}

/// The byte extent after the address-0 reservation.
pub open spec fn adj_size(d: EfiMemoryDescriptor) -> int {
    if d.physical_start == 0 {
        if raw_size(d) <= PAGE_SIZE as int {
            0
        } else {
            raw_size(d) - PAGE_SIZE as int
        }
    } else {
        raw_size(d)
    }
}

/// The free region a surviving descriptor contributes.
pub open spec fn region_of(d: EfiMemoryDescriptor) -> Header {
    Header { addr: adj_start(d) as usize, size: adj_size(d) as usize, is_allocated: false }
}

/// A descriptor the machine can honour: page-aligned start, and an extent
/// that fits the address space.
pub open spec fn descriptor_ok(d: EfiMemoryDescriptor) -> bool {
    &&& d.physical_start as int % (PAGE_SIZE as int) == 0
    &&& d.physical_start as int + raw_size(d) <= usize::MAX
}

/// The two descriptors' raw address ranges do not overlap.
pub open spec fn descriptors_disjoint(d1: EfiMemoryDescriptor, d2: EfiMemoryDescriptor) -> bool {
    ||| d1.physical_start as int + raw_size(d1) <= d2.physical_start as int
    ||| d2.physical_start as int + raw_size(d2) <= d1.physical_start as int
}

/// A memory map the allocator can be initialized from: every usable
/// descriptor is machine-honourable and no two usable descriptors overlap.
pub open spec fn mmap_ok(descs: Seq<EfiMemoryDescriptor>) -> bool {
    &&& forall|i: int|
        0 <= i < descs.len() && usable(#[trigger] descs[i]) ==> descriptor_ok(descs[i])
    &&& forall|i: int, j: int|
        #![trigger descs[i], descs[j]]
        0 <= i < j < descs.len() && usable(descs[i]) && usable(descs[j]) ==> descriptors_disjoint(
            descs[i],
            descs[j],
        )
}

/// `h` is the region contributed by one of the first `bound` descriptors of
/// the map that is usable and survives the adjustment.
pub open spec fn region_from(
    mm: Seq<EfiMemoryDescriptor>,
    bound: int,
    h: Header,
) -> bool {
    exists|j: int|
        0 <= j < bound && usable(mm[j]) && adj_size(mm[j]) > PAGE_SIZE as int && h
            == #[trigger] region_of(mm[j])
}

/// The chain that initialization builds: each usable descriptor whose
/// adjusted extent exceeds one page contributes one free region, prepended to
/// the chain head — so the chain lists the survivors in reverse map order.
pub open spec fn init_chain(descs: Seq<EfiMemoryDescriptor>) -> Seq<Header>
    decreases descs.len(),
{
    if descs.len() == 0 {
        Seq::empty()
    } else {
        let rest = init_chain(descs.drop_last());
        let d = descs.last();
        if usable(d) && adj_size(d) > PAGE_SIZE as int {
            seq![region_of(d)] + rest
        } else {
            rest
        }
    }
}

/// The region a surviving descriptor contributes is well formed.
proof fn lemma_region_of_wf(d: EfiMemoryDescriptor)
    requires
        descriptor_ok(d),
        adj_size(d) > PAGE_SIZE as int,
    ensures
        region_of(d).wf(),
{
    vstd::arithmetic::mul::lemma_mul_nonnegative(d.number_of_pages as int, PAGE_SIZE as int);
    assert(raw_size(d) % (PAGE_SIZE as int) == 0) by {
        vstd::arithmetic::div_mod::lemma_mod_multiples_basic(
            d.number_of_pages as int,
            PAGE_SIZE as int,
        );
    }
    assert(adj_start(d) % (PAGE_SIZE as int) == 0) by {
        vstd::arithmetic::div_mod::lemma_mod_self_0(PAGE_SIZE as int);
    }
    assert(adj_size(d) % (PAGE_SIZE as int) == 0) by {
        vstd::arithmetic::div_mod::lemma_sub_mod_noop(raw_size(d), PAGE_SIZE as int, PAGE_SIZE as int);
        vstd::arithmetic::div_mod::lemma_mod_self_0(PAGE_SIZE as int);
    }
    lemma_divides_transitive(adj_start(d), PAGE_SIZE as int, HEADER_SIZE as int);
    lemma_divides_transitive(adj_size(d), PAGE_SIZE as int, HEADER_SIZE as int);
}

/// The adjusted region stays inside the descriptor's raw address range.
proof fn lemma_region_of_in_raw_range(d: EfiMemoryDescriptor)
    requires
        descriptor_ok(d),
        adj_size(d) > PAGE_SIZE as int,
    ensures
        d.physical_start as int <= region_of(d).addr,
        region_of(d).end() <= d.physical_start as int + raw_size(d),
{
    vstd::arithmetic::mul::lemma_mul_nonnegative(d.number_of_pages as int, PAGE_SIZE as int);
}

/// A carve neither loses nor doubles a single byte: the replacement blocks
/// tile the original block exactly — the shrunk free block starts where the
/// original did, each block ends where the next begins, and the last ends at
/// the original end.
pub proof fn lemma_carve_partitions(h: Header, size: usize, align: usize)
    requires
        h.wf(),
        is_power_of_two(align as int),
        can_satisfy(h, size, align),
    ensures
        ({
            let c = carved_headers(h, size, align);
            &&& c[0].addr == h.addr
            &&& c[0].end() == c[1].addr
            &&& c.last().end() == h.end()
            &&& c.len() == 3 ==> c[1].end() == c[2].addr
        }),
{
    lemma_carve_props(h, size, align);
}

/// The address a carve returns is a live payload of the resulting chain: the
/// carved block sits right behind it, allocated. A caller may therefore hand
/// every address that `alloc_with_options` returns straight to `deallocate`.
pub proof fn lemma_alloc_result_is_live(chain: Seq<Header>, i: int, size: usize, align: usize)
    requires
        chain_wf(chain),
        0 <= i < chain.len(),
        is_power_of_two(align as int),
        can_satisfy(chain[i], size, align),
    ensures
        ({
            let after = chain_after_carve(chain, i, size, align);
            let p = carve_addr(chain[i], size, align);
            &&& 0 < p <= usize::MAX
            &&& live_at(after, i + 1, p as usize)
            &&& is_live_payload(after, p as usize)
        }),
{
    lemma_carve_props(chain[i], size, align);
    lemma_carved_headers_wf(chain[i], size, align);
    let after = chain_after_carve(chain, i, size, align);
    let c = carved_headers(chain[i], size, align);
    let p = carve_addr(chain[i], size, align);
    assert(after[i + 1] == c[1]);
    assert(p + norm_size(size) <= chain[i].end());
    assert(chain[i].end() <= usize::MAX);
    lemma_norm_props(size, align);
    assert(0 < p <= usize::MAX);
    assert(p as usize == p);
    assert(c[1].addr + HEADER_SIZE == p);
    assert(live_at(after, i + 1, p as usize));
}

/// Payload ranges of live allocations never overlap: in a well-formed chain,
/// the payloads `[addr + HEADER_SIZE, addr + size)` of any two distinct
/// allocated regions are disjoint, at every point in time at which the chain
/// invariant holds — that is, after every allocator operation.
pub proof fn lemma_payloads_disjoint(chain: Seq<Header>, i: int, j: int)
    requires
        chain_wf(chain),
        0 <= i < chain.len(),
        0 <= j < chain.len(),
        i != j,
        chain[i].is_allocated,
        chain[j].is_allocated,
    ensures
        chain[i].end() <= chain[j].addr + HEADER_SIZE || chain[j].end() <= chain[i].addr
            + HEADER_SIZE,
{
    if i < j {
        assert(chain[i].disjoint(chain[j]));
    } else {
        assert(chain[j].disjoint(chain[i]));
    }
}

/// Freed memory is eligible for reuse: clearing the allocation flag of a
/// region makes it satisfy every request that passes its sufficiency bound,
/// so by the success condition of `alloc_with_options` a subsequent
/// allocation that fits the freed block (or any other free block) succeeds.
pub proof fn lemma_freed_block_can_satisfy(chain: Seq<Header>, j: int, size: usize, align: usize)
    requires
        0 <= j < chain.len(),
        size_ok(size),
        chain[j].size as int >= norm_size(size) + 2 * (HEADER_SIZE as int) * norm_align(align),
    ensures
        can_satisfy(chain.update(j, freed(chain[j]))[j], size, align),
{
}

/// Capacity contributed by a single-descriptor map: a usable descriptor of
/// `N` pages starting at physical address 0 yields one free region of
/// `(N - 1) * PAGE_SIZE` bytes when that is more than a page, and the map
/// contributes nothing when the descriptor is not usable or the adjusted
/// extent is at most one page.
pub proof fn lemma_init_chain_single(d: EfiMemoryDescriptor)
    ensures
        usable(d) && adj_size(d) > PAGE_SIZE as int ==> init_chain(seq![d]) =~= seq![region_of(d)],
        !(usable(d) && adj_size(d) > PAGE_SIZE as int) ==> init_chain(seq![d]) =~= Seq::<
            Header,
        >::empty(),
        d.physical_start == 0 && d.number_of_pages >= 1 ==> adj_size(d) == (d.number_of_pages as int
            - 1) * (PAGE_SIZE as int),
{
    let s = seq![d];
    assert(s.drop_last() =~= Seq::<EfiMemoryDescriptor>::empty());
    assert(init_chain(s.drop_last()) =~= Seq::<Header>::empty());
    assert(s.last() == d);
    if d.physical_start == 0 && d.number_of_pages >= 1 {
        assert((d.number_of_pages as int - 1) * (PAGE_SIZE as int) == d.number_of_pages as int * (
        PAGE_SIZE as int) - PAGE_SIZE as int) by (nonlinear_arith);
        assert(raw_size(d) >= PAGE_SIZE as int) by {
            vstd::arithmetic::mul::lemma_mul_inequality(1, d.number_of_pages as int, PAGE_SIZE as int);
        }
    }
}

} // verus!
