//! Download orchestration arithmetic: splitting the piece indexes into
//! contiguous chunks, one per peer, and concatenating finished pieces in
//! ascending index order.
use vstd::prelude::*;

use crate::errors::TorrentError;
use crate::numbers::ceil_div;

verus! {

/// `a / b` rounded up.
pub fn int_div_with_ceil(a: usize, b: usize) -> (r: usize)
    requires
        b >= 1,
    ensures
        r == ceil_div(a as int, b as int),
{
    let q = a / b;
    let rem = a % b;
    proof {
        assert(a as int % b as int > 0 ==> (a as int / b as int) < (a as int)) by (nonlinear_arith)
            requires
                b >= 1,
        ;
        assert(ceil_div(a as int, b as int) == if a as int % b as int > 0 {
            a as int / b as int + 1
        } else {
            a as int / b as int
        }) by (nonlinear_arith)
            requires
                b >= 1,
        ;
    }
    if rem > 0 {
        q + 1
    } else {
        q
    }
}

/// The bounds of the `k`-th contiguous chunk when `n` items are split into
/// chunks of `cs`.
pub open spec fn chunk_of(n: int, cs: int, k: int) -> (usize, usize) {
    (
        (k * cs) as usize,
        (if k * cs + cs < n {
            k * cs + cs
        } else {
            n
        }) as usize,
    )
}

/// Split the piece indexes `0..num_pieces` into contiguous chunks of
/// `ceil(num_pieces / num_peers)`, one chunk per worker; fails exactly when
/// there is no peer.
pub fn plan_chunks(num_pieces: usize, num_peers: usize) -> (r: Result<
    Vec<(usize, usize)>,
    TorrentError,
>)
    requires
        num_pieces >= 1,
    ensures
        r is Ok <==> num_peers >= 1,
        match r {
            Ok(chunks) => {
                let cs = ceil_div(num_pieces as int, num_peers as int);
                &&& chunks@.len() == ceil_div(num_pieces as int, cs)
                &&& chunks@.len() <= num_peers
                &&& forall|k: int|
                    0 <= k < chunks@.len() ==> #[trigger] chunks@[k] == chunk_of(
                        num_pieces as int,
                        cs,
                        k,
                    )
            },
            Err(e) => e == TorrentError::NoPeersAvailable,
        },
{
    if num_peers == 0 {
        return Err(TorrentError::NoPeersAvailable);
    }
    let cs = int_div_with_ceil(num_pieces, num_peers);
    proof {
        assert(cs >= 1 && cs as int * num_peers as int >= num_pieces) by (nonlinear_arith)
            requires
                num_pieces >= 1,
                num_peers >= 1,
                cs == ceil_div(num_pieces as int, num_peers as int),
        ;
    }
    let mut chunks: Vec<(usize, usize)> = Vec::new();
    let mut start: usize = 0;
    let mut k: usize = 0;
    #[verifier::loop_isolation(false)]
    while start < num_pieces
        invariant
            start == k as int * cs,
            k <= start < num_pieces,
            chunks@.len() == k as int,
            forall|j: int|
                0 <= j < k as int ==> #[trigger] chunks@[j] == chunk_of(
                    num_pieces as int,
                    cs as int,
                    j,
                ),
        decreases num_pieces - start,
    {
        let end = if num_pieces - start < cs {
            num_pieces
        } else {
            start + cs
        };
        chunks.push((start, end));
        proof {
            assert((k + 1) as int * cs == k as int * cs + cs) by (nonlinear_arith);
            assert(chunks@[k as int] == chunk_of(num_pieces as int, cs as int, k as int));
        }
        if end == num_pieces {
            k = k + 1;
            proof {
                let ki = k as int;
                let n = num_pieces as int;
                let c = cs as int;
                assert((ki - 1) * c < n <= ki * c);
                assert(ceil_div(n, c) == ki) by (nonlinear_arith)
                    requires
                        c >= 1,
                        (ki - 1) * c < n <= ki * c,
                ;
                assert(ki <= num_peers) by (nonlinear_arith)
                    requires
                        c >= 1,
                        num_peers >= 1,
                        (ki - 1) * c < n,
                        c * num_peers as int >= n,
                ;
            }
            return Ok(chunks);
        }
        start = start + cs;
        k = k + 1;
    }
    proof {
        assert(false);
    }
    Err(TorrentError::NoPeersAvailable)
}

/// How many entries of `s` carry piece index `idx`.
pub open spec fn count_matches(s: Seq<(usize, Vec<u8>)>, idx: int) -> int
    decreases s.len(),
{
    if s.len() == 0 {
        0
    } else {
        count_matches(s.drop_last(), idx) + if s.last().0 == idx {
            1int
        } else {
            0int
        }
    }
}

/// The bytes of the entry carrying piece index `idx`.
pub open spec fn piece_data(s: Seq<(usize, Vec<u8>)>, idx: int) -> Seq<u8> {
    let j = choose|j: int| 0 <= j < s.len() && (#[trigger] s[j]).0 == idx;
    s[j].1@
}

/// The concatenation of the pieces `0..n` in ascending index order.
pub open spec fn concat_pieces(s: Seq<(usize, Vec<u8>)>, n: int) -> Seq<u8>
    decreases n,
{
    if n <= 0 {
        Seq::empty()
    } else {
        concat_pieces(s, n - 1) + piece_data(s, n - 1)
    }
}

pub proof fn lemma_count_positive(s: Seq<(usize, Vec<u8>)>, idx: int, a: int)
    requires
        0 <= a < s.len(),
        s[a].0 == idx,
    ensures
        count_matches(s, idx) >= 1,
    decreases s.len(),
{
    if a == s.len() - 1 {
        lemma_count_nonneg(s.drop_last(), idx);
    } else {
        lemma_count_positive(s.drop_last(), idx, a);
    }
}

pub proof fn lemma_count_nonneg(s: Seq<(usize, Vec<u8>)>, idx: int)
    ensures
        count_matches(s, idx) >= 0,
    decreases s.len(),
{
    if s.len() > 0 {
        lemma_count_nonneg(s.drop_last(), idx);
    }
}

/// With exactly one match, any two matching positions coincide.
pub proof fn lemma_count_unique(s: Seq<(usize, Vec<u8>)>, idx: int, a: int, b: int)
    requires
        count_matches(s, idx) == 1,
        0 <= a < s.len(),
        0 <= b < s.len(),
        s[a].0 == idx,
        s[b].0 == idx,
    ensures
        a == b,
    decreases s.len(),
{
    if a != b {
        let hi = if a > b {
            a
        } else {
            b
        };
        let lo = if a > b {
            b
        } else {
            a
        };
        if hi == s.len() - 1 {
            lemma_count_positive(s.drop_last(), idx, lo);
        } else {
            lemma_count_positive(s.drop_last(), idx, hi);
            lemma_count_positive(s.drop_last(), idx, lo);
            lemma_count_unique(s.drop_last(), idx, lo, hi);
        }
    }
}

/// Concatenate the pieces in ascending index order.  Succeeds exactly when
/// every index below `num_pieces` is carried by exactly one entry.
pub fn assemble_file(pieces: &Vec<(usize, Vec<u8>)>, num_pieces: usize) -> (r: Option<Vec<u8>>)
    ensures
        r is Some <==> (forall|i: int|
            0 <= i < num_pieces ==> count_matches(pieces@, i) == 1),
        match r {
            Some(out) => out@ == concat_pieces(pieces@, num_pieces as int),
            None => true,
        },
{
    let mut out: Vec<u8> = Vec::new();
    let mut i: usize = 0;
    #[verifier::loop_isolation(false)]
    while i < num_pieces
        invariant
            i <= num_pieces,
            out@ =~= concat_pieces(pieces@, i as int),
            forall|u: int| 0 <= u < i ==> count_matches(pieces@, u) == 1,
        decreases num_pieces - i,
    {
        let mut cnt: usize = 0;
        let mut found: usize = 0;
        let mut j: usize = 0;
        #[verifier::loop_isolation(false)]
        while j < pieces.len()
            invariant
                j <= pieces.len(),
                cnt as int == count_matches(pieces@.take(j as int), i as int),
                cnt <= j,
                cnt >= 1 ==> (found < j && pieces@[found as int].0 == i as int),
            decreases pieces.len() - j,
        {
            proof {
                assert(pieces@.take(j + 1int).drop_last() =~= pieces@.take(j as int));
            }
            if pieces[j].0 == i {
                cnt = cnt + 1;
                found = j;
            }
            j = j + 1;
        }
        proof {
            assert(pieces@.take(pieces@.len() as int) =~= pieces@);
        }
        if cnt != 1 {
            proof {
                if count_matches(pieces@, i as int) == 1 {
                    assert(false);
                }
            }
            return None;
        }
        let data = &pieces[found].1;
        let mut t: usize = 0;
        #[verifier::loop_isolation(false)]
        while t < data.len()
            invariant
                t <= data.len(),
                out@ =~= concat_pieces(pieces@, i as int) + data@.take(t as int),
            decreases data.len() - t,
        {
            out.push(data[t]);
            proof {
                assert(data@.take(t + 1int) =~= data@.take(t as int).push(data@[t as int]));
            }
            t = t + 1;
        }
        proof {
            assert(exists|j: int| 0 <= j < pieces@.len() && (#[trigger] pieces@[j]).0 == i as int)
                by {
                assert(pieces@[found as int].0 == i as int);
            }
            assert forall|j1: int, j2: int|
                0 <= j1 < pieces@.len() && (#[trigger] pieces@[j1]).0 == i as int && 0 <= j2
                    < pieces@.len() && (#[trigger] pieces@[j2]).0 == i as int implies j1 == j2 by {
                lemma_count_unique(pieces@, i as int, j1, j2);
            }
            assert(pieces@[found as int].1@ == data@);
            assert(piece_data(pieces@, i as int) == data@);
            assert(data@.take(data@.len() as int) =~= data@);
            assert(out@ =~= concat_pieces(pieces@, i + 1int));
        }
        i = i + 1;
    }
    Some(out)
}

} // verus!
