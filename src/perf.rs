//! Latency percentiles over a batch of samples.
use vstd::prelude::*;

verus! {

/// Percentiles of a batch of samples, nearest-rank.
#[derive(Clone, Copy, Debug, PartialEq, Eq, Structural)]
pub struct Stats {
    pub p10: u32,
    pub p20: u32,
    pub p30: u32,
    pub p40: u32,
    pub p50: u32,
    pub p60: u32,
    pub p70: u32,
    pub p80: u32,
    pub p90: u32,
    pub p95: u32,
    pub p96: u32,
    pub p97: u32,
    pub p98: u32,
    pub p99: u32,
    pub p999: u32,
    pub p100: u32,
}

pub open spec fn sorted_u32(s: Seq<u32>) -> bool {
    forall|i: int, j: int| 0 <= i <= j < s.len() ==> s[i] <= s[j]
}

/// Position of the nearest-rank percentile `permille / 10` in `len` sorted samples:
/// the sample at rank `ceil(permille * len / 1000)`, counting from 1 (at least the
/// first); the last sample from the 100th percentile on.
pub open spec fn rank_position(len: nat, permille: nat) -> int {
    if permille >= 1000 {
        len - 1
    } else {
        let rank = (permille * len + 999) / 1000;
        let pos = if rank > 0 {
            rank - 1
        } else {
            0
        };
        if pos < len - 1 {
            pos
        } else {
            len - 1
        }
    }
}

/// Relies on `slice::sort_unstable`: it leaves the same values, in ascending order.
#[verifier::external_body]
fn sort_ascending(v: &mut Vec<u32>)
    ensures
        final(v)@.to_multiset() == old(v)@.to_multiset(),
        sorted_u32(final(v)@),
{
    v.sort_unstable();
}

/// The sample at the percentile `permille / 10` of sorted samples.
fn at_permille(sorted: &Vec<u32>, permille: u64) -> (r: u32)
    requires
        sorted@.len() > 0,
        permille <= 1000,
    ensures
        r == sorted@[rank_position(sorted@.len(), permille as nat)],
{
    let len = sorted.len();
    if permille >= 1000 {
        return sorted[len - 1];
    }
    proof {
        assert(permille * len <= 1000 * 0xffff_ffff_ffff_ffffint) by (nonlinear_arith)
            requires
                permille <= 1000,
                len <= 0xffff_ffff_ffff_ffffint,
        ;
    }
    let rank = (permille as u128 * len as u128 + 999) / 1000;
    let pos: u128 = if rank > 0 {
        rank - 1
    } else {
        0
    };
    let last = (len - 1) as u128;
    let i = if pos < last {
        pos
    } else {
        last
    };
    sorted[i as usize]
}

/// The nearest-rank percentiles of the samples, or `None` for no samples.
pub fn calculate_perf(data: Vec<u32>) -> (r: Option<Stats>)
    ensures
        data@.len() == 0 <==> r is None,
        r is Some ==> exists|s: Seq<u32>|
            #![trigger sorted_u32(s)]
            {
                let st = r->Some_0;
                let n = s.len();
                &&& s.to_multiset() == data@.to_multiset()
                &&& sorted_u32(s)
                &&& n == data@.len()
                &&& st.p10 == s[rank_position(n, 100)]
                &&& st.p20 == s[rank_position(n, 200)]
                &&& st.p30 == s[rank_position(n, 300)]
                &&& st.p40 == s[rank_position(n, 400)]
                &&& st.p50 == s[rank_position(n, 500)]
                &&& st.p60 == s[rank_position(n, 600)]
                &&& st.p70 == s[rank_position(n, 700)]
                &&& st.p80 == s[rank_position(n, 800)]
                &&& st.p90 == s[rank_position(n, 900)]
                &&& st.p95 == s[rank_position(n, 950)]
                &&& st.p96 == s[rank_position(n, 960)]
                &&& st.p97 == s[rank_position(n, 970)]
                &&& st.p98 == s[rank_position(n, 980)]
                &&& st.p99 == s[rank_position(n, 990)]
                &&& st.p999 == s[rank_position(n, 999)]
                &&& st.p100 == s[rank_position(n, 1000)]
            },
{
    if data.len() == 0 {
        return None;
    }
    let ghost d0 = data@;
    let mut v = data;
    sort_ascending(&mut v);
    proof {
        v@.to_multiset_ensures();
        d0.to_multiset_ensures();
    }
    Some(
        Stats {
            p10: at_permille(&v, 100),
            p20: at_permille(&v, 200),
            p30: at_permille(&v, 300),
            p40: at_permille(&v, 400),
            p50: at_permille(&v, 500),
            p60: at_permille(&v, 600),
            p70: at_permille(&v, 700),
            p80: at_permille(&v, 800),
            p90: at_permille(&v, 900),
            p95: at_permille(&v, 950),
            p96: at_permille(&v, 960),
            p97: at_permille(&v, 970),
            p98: at_permille(&v, 980),
            p99: at_permille(&v, 990),
            p999: at_permille(&v, 999),
            p100: at_permille(&v, 1000),
        },
    )
}

} // verus!
