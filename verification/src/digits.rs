//! Counting decimal digits of an integer.

use vstd::prelude::*;

verus! {

/// How often `digit` occurs in the decimal representation of `n`.
/// Zero is taken to have no digits at all.
pub open spec fn spec_count_digit(n: int, digit: int) -> int
    decreases n,
{
    if n <= 0 {
        0
    } else {
        (if n % 10 == digit {
            1int
        } else {
            0int
        }) + spec_count_digit(n / 10, digit)
    }
}

/// Ten raised to the given power.
pub open spec fn pow10(k: nat) -> int
    decreases k,
{
    if k == 0 {
        1
    } else {
        10 * pow10((k - 1) as nat)
    }
}

/// A number below `pow10(k)` has at most `k` decimal digits, so no digit
/// occurs more often than that.
pub proof fn lemma_count_digit_bound(n: int, digit: int, k: nat)
    requires
        0 <= n < pow10(k),
    ensures
        0 <= spec_count_digit(n, digit) <= k,
    decreases k,
{
    if n > 0 {
        if k == 0 {
        } else {
            assert(n / 10 < pow10((k - 1) as nat)) by {
                assert(pow10(k) == 10 * pow10((k - 1) as nat));
            }
            lemma_count_digit_bound(n / 10, digit, (k - 1) as nat);
        }
    }
}

/// Count how often the decimal representation of `n` contains `digit`.
pub fn count_digit(n: u64, digit: u64) -> (r: u32)
    ensures
        r == spec_count_digit(n as int, digit as int),
{
    proof {
        reveal_with_fuel(pow10, 21);
        assert(n < pow10(20));
        lemma_count_digit_bound(n as int, digit as int, 20);
    }
    let mut result: u32 = 0;
    let mut m = n;
    while m > 0
        invariant
            result + spec_count_digit(m as int, digit as int) == spec_count_digit(
                n as int,
                digit as int,
            ),
            spec_count_digit(n as int, digit as int) <= 20,
        decreases m,
    {
        let d = m % 10;
        proof {
            reveal_with_fuel(pow10, 21);
            lemma_count_digit_bound(m as int, digit as int, 20);
            lemma_count_digit_bound(m as int / 10, digit as int, 20);
        }
        m = m / 10;
        if d == digit {
            result = result + 1;
        }
    }
    result
}

/// Whether a prefix state is itself a hit: long enough, divisible, and at
/// least half its digits are the favorite one.
pub open spec fn hit(pos: int, count: int, rem: int, lo: int) -> bool {
    pos >= lo && rem == 0 && count >= (pos + 1) / 2
}

/// How many digit strings extending the given prefix state, with lengths
/// up to `hi`, are hits: at least `lo` digits long, no leading zero,
/// divisible by the favorite number, and at least half favorite digits.
pub open spec fn spec_search(
    pos: int,
    count: int,
    rem: int,
    fd: int,
    fnum: int,
    lo: int,
    hi: int,
) -> int
    decreases hi - pos, 1int, 0int,
{
    if pos >= hi {
        if hit(pos, count, rem, lo) {
            1
        } else {
            0
        }
    } else {
        (if hit(pos, count, rem, lo) {
            1int
        } else {
            0int
        }) + spec_search_digits(pos, count, rem, fd, fnum, lo, hi, if pos > 0 {
            0
        } else {
            1
        })
    }
}

/// The part of [`spec_search`] contributed by next digits `d..10`.
pub open spec fn spec_search_digits(
    pos: int,
    count: int,
    rem: int,
    fd: int,
    fnum: int,
    lo: int,
    hi: int,
    d: int,
) -> int
    decreases hi - pos, 0int, 10 - d,
{
    if pos >= hi || d > 9 || d < 0 {
        0
    } else {
        spec_search(
            pos + 1,
            count + (if d == fd {
                1int
            } else {
                0int
            }),
            (rem * 10 + d) % fnum,
            fd,
            fnum,
            lo,
            hi,
        ) + spec_search_digits(pos, count, rem, fd, fnum, lo, hi, d + 1)
    }
}

/// The search count is bounded by the size of the digit tree.
pub proof fn lemma_search_bound(pos: int, count: int, rem: int, fd: int, fnum: int, lo: int, hi: int)
    requires
        pos <= hi,
    ensures
        0 <= spec_search(pos, count, rem, fd, fnum, lo, hi) <= 2 * pow10((hi - pos) as nat) - 1,
    decreases hi - pos, 1int, 0int,
{
    if pos >= hi {
    } else {
        let d0: int = if pos > 0 {
            0
        } else {
            1
        };
        lemma_digits_bound(pos, count, rem, fd, fnum, lo, hi, d0);
        assert(pow10((hi - pos) as nat) == 10 * pow10((hi - pos - 1) as nat));
        lemma_pow10_pos((hi - pos - 1) as nat);
        let p = pow10((hi - pos - 1) as nat);
        assert((10 - d0) * (2 * p - 1) <= 10 * (2 * p - 1)) by (nonlinear_arith)
            requires
                0 <= d0,
                p >= 1,
        ;
    }
}

/// The digit tail of the search is bounded likewise.
proof fn lemma_digits_bound(
    pos: int,
    count: int,
    rem: int,
    fd: int,
    fnum: int,
    lo: int,
    hi: int,
    d: int,
)
    requires
        pos < hi,
        0 <= d <= 10,
    ensures
        0 <= spec_search_digits(pos, count, rem, fd, fnum, lo, hi, d) <= (10 - d) * (2 * pow10((
        hi - pos - 1) as nat) - 1),
    decreases hi - pos, 0int, 10 - d,
{
    lemma_pow10_pos((hi - pos - 1) as nat);
    if d > 9 {
        assert(spec_search_digits(pos, count, rem, fd, fnum, lo, hi, d) == 0);
        assert((10 - d) * (2 * pow10((hi - pos - 1) as nat) - 1) == 0);
    } else {
        lemma_search_bound(
            pos + 1,
            count + (if d == fd {
                1int
            } else {
                0int
            }),
            (rem * 10 + d) % fnum,
            fd,
            fnum,
            lo,
            hi,
        );
        lemma_digits_bound(pos, count, rem, fd, fnum, lo, hi, d + 1);
        assert((10 - d) * (2 * pow10((hi - pos - 1) as nat) - 1) == (2 * pow10((hi - pos - 1) as nat)
            - 1) + (10 - d - 1) * (2 * pow10((hi - pos - 1) as nat) - 1)) by (nonlinear_arith);
    }
}

/// Where the memo for a prefix state lives in the flat cache.
pub open spec fn cache_at(pos: int, count: int, rem: int, fnum: int, hi: int) -> int {
    pos * hi * fnum + count * fnum + rem
}

/// Every filled cache slot holds the search count of its state; empty
/// slots hold the largest machine value as a sentinel.
pub open spec fn cache_valid(c: Seq<u64>, fd: int, fnum: int, lo: int, hi: int) -> bool {
    forall|p: int, cnt: int, rm: int|
        0 <= p < hi && 0 <= cnt <= p && 0 <= rm < fnum ==> (#[trigger] c[cache_at(
            p,
            cnt,
            rm,
            fnum,
            hi,
        )]) == u64::MAX || c[cache_at(p, cnt, rm, fnum, hi)] == spec_search(
            p,
            cnt,
            rm,
            fd,
            fnum,
            lo,
            hi,
        )
}

/// Distinct prefix states use distinct cache slots.
proof fn lemma_cache_at_injective(
    p1: int,
    c1: int,
    r1: int,
    p2: int,
    c2: int,
    r2: int,
    fnum: int,
    hi: int,
)
    requires
        fnum >= 1,
        hi >= 1,
        0 <= p1 < hi,
        0 <= c1 <= p1,
        0 <= r1 < fnum,
        0 <= p2 < hi,
        0 <= c2 <= p2,
        0 <= r2 < fnum,
        cache_at(p1, c1, r1, fnum, hi) == cache_at(p2, c2, r2, fnum, hi),
    ensures
        p1 == p2,
        c1 == c2,
        r1 == r2,
{
    assert(c1 * fnum + r1 < hi * fnum && c2 * fnum + r2 < hi * fnum) by (nonlinear_arith)
        requires
            0 <= c1 < hi,
            0 <= r1 < fnum,
            0 <= c2 < hi,
            0 <= r2 < fnum,
            fnum >= 1,
    ;
    assert(p1 == p2) by (nonlinear_arith)
        requires
            p1 * hi * fnum + c1 * fnum + r1 == p2 * hi * fnum + c2 * fnum + r2,
            0 <= c1 * fnum + r1 < hi * fnum,
            0 <= c2 * fnum + r2 < hi * fnum,
            0 <= p1,
            0 <= p2,
    ;
    assert(c1 * fnum + r1 == c2 * fnum + r2) by (nonlinear_arith)
        requires
            p1 * hi * fnum + c1 * fnum + r1 == p2 * hi * fnum + c2 * fnum + r2,
            p1 == p2,
    ;
    assert(c1 == c2) by (nonlinear_arith)
        requires
            c1 * fnum + r1 == c2 * fnum + r2,
            0 <= r1 < fnum,
            0 <= r2 < fnum,
            0 <= c1,
            0 <= c2,
    ;
}

/// A cache slot index stays below the cache length.
proof fn lemma_cache_at_in_range(p: int, cnt: int, rm: int, fnum: int, hi: int)
    requires
        fnum >= 1,
        1 <= hi <= 16,
        0 <= p < hi,
        0 <= cnt <= p,
        0 <= rm < fnum,
    ensures
        0 <= cache_at(p, cnt, rm, fnum, hi) < 16 * 16 * fnum,
{
    assert(0 <= p * hi * fnum + cnt * fnum + rm < 16 * 16 * fnum) by (nonlinear_arith)
        requires
            fnum >= 1,
            1 <= hi <= 16,
            0 <= p < hi,
            0 <= cnt <= p,
            0 <= rm < fnum,
    ;
}

/// Count the digit strings of lengths `len_lo..=len_hi` that have no
/// leading zero, are divisible by `favorite_number`, and hold the
/// `favorite_digit` in at least half of their places, starting the walk at
/// a prefix of `pos` digits, of which `count` are favorite, with value
/// `remainder` modulo the favorite number.  `cache` memoizes finished
/// states, with the largest machine value marking an empty slot.
pub fn dfs(
    pos: u64,
    count: u64,
    remainder: u64,
    favorite_digit: u64,
    favorite_number: u64,
    len_lo: u64,
    len_hi: u64,
    cache: &mut Vec<u64>,
) -> (r: u64)
    requires
        1 <= favorite_number,
        pos <= len_hi,
        1 <= len_hi <= 16,
        count <= pos,
        remainder < favorite_number,
        old(cache)@.len() == 16 * 16 * favorite_number,
        cache_valid(
            old(cache)@,
            favorite_digit as int,
            favorite_number as int,
            len_lo as int,
            len_hi as int,
        ),
    ensures
        final(cache)@.len() == old(cache)@.len(),
        cache_valid(
            final(cache)@,
            favorite_digit as int,
            favorite_number as int,
            len_lo as int,
            len_hi as int,
        ),
        r == spec_search(
            pos as int,
            count as int,
            remainder as int,
            favorite_digit as int,
            favorite_number as int,
            len_lo as int,
            len_hi as int,
        ),
    decreases len_hi - pos,
{
    let ghost fd = favorite_digit as int;
    let ghost fnum = favorite_number as int;
    let ghost lo = len_lo as int;
    let ghost hi = len_hi as int;
    let cache_len = cache.len();
    proof {
        assert(256 * fnum == cache_len);
    }
    let ok = pos >= len_lo && remainder == 0 && count >= (pos + 1) / 2;
    proof {
        assert(ok == hit(pos as int, count as int, remainder as int, lo));
    }
    if pos == len_hi {
        return if ok {
            1
        } else {
            0
        };
    }
    proof {
        assert(256 * fnum <= usize::MAX);
        lemma_cache_at_in_range(pos as int, count as int, remainder as int, fnum, hi);
        assert((pos as int) * (len_hi as int) <= 256) by (nonlinear_arith)
            requires
                0 <= pos as int <= 16,
                0 <= len_hi as int <= 16,
        ;
        assert((pos as int) * (len_hi as int) * fnum <= 256 * fnum) by (nonlinear_arith)
            requires
                (pos as int) * (len_hi as int) <= 256,
                fnum >= 1,
        ;
        assert((count as int) * fnum <= 16 * fnum) by (nonlinear_arith)
            requires
                0 <= count as int <= 16,
                fnum >= 1,
        ;
        assert(pos * len_hi * favorite_number + count * favorite_number + remainder == cache_at(
            pos as int,
            count as int,
            remainder as int,
            fnum,
            hi,
        ));
    }
    let idx = (pos * len_hi * favorite_number + count * favorite_number + remainder) as usize;
    let cached = cache[idx];
    if cached != u64::MAX {
        proof {
            assert(cache@[cache_at(pos as int, count as int, remainder as int, fnum, hi)]
                == u64::MAX || cache@[cache_at(pos as int, count as int, remainder as int, fnum, hi)]
                == spec_search(pos as int, count as int, remainder as int, fd, fnum, lo, hi));
        }
        return cached;
    }
    let mut result: u64 = if ok {
        1
    } else {
        0
    };
    let mut d: u64 = if pos > 0 {
        0
    } else {
        1
    };
    proof {
        lemma_search_bound(pos as int, count as int, remainder as int, fd, fnum, lo, hi);
        lemma_digits_bound(pos as int, count as int, remainder as int, fd, fnum, lo, hi, d as int);
        reveal_with_fuel(pow10, 17);
    }
    while d <= 9
        invariant
            1 <= favorite_number,
            pos < len_hi,
            1 <= len_hi <= 16,
            count <= pos,
            remainder < favorite_number,
            d <= 10,
            fd == favorite_digit as int,
            fnum == favorite_number as int,
            lo == len_lo as int,
            hi == len_hi as int,
            cache@.len() == old(cache)@.len(),
            old(cache)@.len() == 16 * 16 * favorite_number,
            256 * fnum <= usize::MAX,
            cache_valid(cache@, fd, fnum, lo, hi),
            result + spec_search_digits(
                pos as int,
                count as int,
                remainder as int,
                fd,
                fnum,
                lo,
                hi,
                d as int,
            ) == spec_search(pos as int, count as int, remainder as int, fd, fnum, lo, hi),
            result <= 2 * pow10((len_hi - pos) as nat) - 1,
            pow10((len_hi - pos) as nat) <= pow10(16),
            pow10(16) == 0x2386f26fc10000,
        decreases 10 - d,
    {
        let nc = if d == favorite_digit {
            count + 1
        } else {
            count
        };
        proof {
            assert(remainder * 10 + d < 256 * fnum) by (nonlinear_arith)
                requires
                    remainder < fnum,
                    d <= 10,
                    fnum >= 1,
            ;
            assert(256 * fnum <= usize::MAX);
        }
        let nr = (remainder * 10 + d) % favorite_number;
        let sub = dfs(pos + 1, nc, nr, favorite_digit, favorite_number, len_lo, len_hi, cache);
        proof {
            lemma_search_bound(pos as int + 1, nc as int, nr as int, fd, fnum, lo, hi);
            lemma_digits_bound(
                pos as int,
                count as int,
                remainder as int,
                fd,
                fnum,
                lo,
                hi,
                d as int + 1,
            );
            assert(pow10((len_hi - pos - 1) as nat) <= pow10((len_hi - pos) as nat)) by {
                lemma_pow10_pos((len_hi - pos - 1) as nat);
            }
            assert(spec_search_digits(
                pos as int,
                count as int,
                remainder as int,
                fd,
                fnum,
                lo,
                hi,
                d as int,
            ) == spec_search(pos as int + 1, nc as int, nr as int, fd, fnum, lo, hi)
                + spec_search_digits(
                pos as int,
                count as int,
                remainder as int,
                fd,
                fnum,
                lo,
                hi,
                d as int + 1,
            ));
            lemma_search_bound(pos as int, count as int, remainder as int, fd, fnum, lo, hi);
        }
        result = result + sub;
        d = d + 1;
    }
    proof {
        assert(spec_search_digits(
            pos as int,
            count as int,
            remainder as int,
            fd,
            fnum,
            lo,
            hi,
            10,
        ) == 0);
        lemma_cache_at_in_range(pos as int, count as int, remainder as int, fnum, hi);
    }
    let wr = idx;
    cache.set(wr, result);
    proof {
        let ghost newc = cache@;
        assert forall|p: int, cnt: int, rm: int|
            0 <= p < hi && 0 <= cnt <= p && 0 <= rm < fnum implies (#[trigger] newc[cache_at(
            p,
            cnt,
            rm,
            fnum,
            hi,
        )]) == u64::MAX || newc[cache_at(p, cnt, rm, fnum, hi)] == spec_search(
            p,
            cnt,
            rm,
            fd,
            fnum,
            lo,
            hi,
        ) by {
            lemma_cache_at_in_range(p, cnt, rm, fnum, hi);
            if cache_at(p, cnt, rm, fnum, hi) == cache_at(
                pos as int,
                count as int,
                remainder as int,
                fnum,
                hi,
            ) {
                lemma_cache_at_injective(
                    p,
                    cnt,
                    rm,
                    pos as int,
                    count as int,
                    remainder as int,
                    fnum,
                    hi,
                );
            }
        }
    }
    result
}

/// Ten to any power is positive.
proof fn lemma_pow10_pos(k: nat)
    ensures
        pow10(k) >= 1,
    decreases k,
{
    if k > 0 {
        lemma_pow10_pos((k - 1) as nat);
    }
}

} // verus!
