use vstd::prelude::*;

verus! {

/// Facts about single-bit masks `m = 1 << s` of indices below `len = 1 << n`.
pub proof fn lemma_bit_clear(i: usize, s: usize, n: usize)
    requires
        s < n,
        n < usize::BITS,
        i < (1usize << n),
        i & (1usize << s) == 0,
    ensures
        i + (1usize << s) < (1usize << n),
        (i + (1usize << s)) as usize & (1usize << s) != 0,
{
    assert(i + (1usize << s) < (1usize << n) && ((i + (1usize << s)) as usize & (1usize << s)) != 0)
        by (bit_vector)
        requires
            s < n,
            n < usize::BITS,
            i < (1usize << n),
            i & (1usize << s) == 0,
    ;
}

pub proof fn lemma_bit_set(i: usize, s: usize)
    requires
        s < usize::BITS,
        i & (1usize << s) != 0,
    ensures
        i >= (1usize << s),
        (i - (1usize << s)) as usize & (1usize << s) == 0,
{
    assert(i >= (1usize << s) && ((i - (1usize << s)) as usize & (1usize << s)) == 0)
        by (bit_vector)
        requires
            s < usize::BITS,
            i & (1usize << s) != 0,
    ;
}

pub proof fn lemma_other_bit_add(i: usize, s: usize, t: usize)
    requires
        s < usize::BITS,
        t < usize::BITS,
        s != t,
        i & (1usize << s) == 0,
    ensures
        ((i + (1usize << s)) as usize & (1usize << t) == 0) == (i & (1usize << t) == 0),
{
    assert(((i + (1usize << s)) as usize & (1usize << t) == 0) == (i & (1usize << t) == 0))
        by (bit_vector)
        requires
            s < usize::BITS,
            t < usize::BITS,
            s != t,
            i & (1usize << s) == 0,
    ;
}

pub proof fn lemma_other_bit_sub(i: usize, s: usize, t: usize)
    requires
        s < usize::BITS,
        t < usize::BITS,
        s != t,
        i & (1usize << s) != 0,
    ensures
        ((i - (1usize << s)) as usize & (1usize << t) == 0) == (i & (1usize << t) == 0),
{
    assert(((i - (1usize << s)) as usize & (1usize << t) == 0) == (i & (1usize << t) == 0))
        by (bit_vector)
        requires
            s < usize::BITS,
            t < usize::BITS,
            s != t,
            i & (1usize << s) != 0,
    ;
}

/// How the low bits of `i` below bit `s + 1` (mask `hi`) relate to those
/// below bit `s` (mask `lo`) and to bit `s` itself (mask `m`).
pub proof fn lemma_low_bits(i: usize, s: usize, n: usize, m: usize, lo: usize, hi: usize)
    requires
        s < n,
        n < usize::BITS,
        i < (1usize << n),
        m == 1usize << s,
        lo == (m - 1) as usize,
        hi == (m + m - 1) as usize,
    ensures
        i & m == 0 ==> ((i & hi == 0) == (i & lo == 0)),
        i & m == 0 ==> ((i + m) as usize) & hi != 0,
        i & m != 0 ==> i & hi != 0,
        i & m != 0 ==> ((((i - m) as usize) & hi == 0) == (i & lo == 0)),
{
    assert(i & m == 0 ==> ((i & hi == 0) == (i & lo == 0))) by (bit_vector)
        requires
            s < n,
            n < 64,
            m == 1usize << s,
            lo == (m - 1) as usize,
            hi == (m + m - 1) as usize,
    ;
    assert(i & m == 0 ==> ((i + m) as usize) & hi != 0) by (bit_vector)
        requires
            s < n,
            n < 64,
            i < (1usize << n),
            m == 1usize << s,
            hi == (m + m - 1) as usize,
    ;
    assert(i & m != 0 ==> i & hi != 0) by (bit_vector)
        requires
            s < n,
            n < 64,
            m == 1usize << s,
            hi == (m + m - 1) as usize,
    ;
    assert(i & m != 0 ==> ((((i - m) as usize) & hi == 0) == (i & lo == 0))) by (bit_vector)
        requires
            s < n,
            n < 64,
            m == 1usize << s,
            lo == (m - 1) as usize,
            hi == (m + m - 1) as usize,
    ;
}

} // verus!
