//! The teacher's scan of the classroom: what each peer answered, and the
//! order in which the peers are listed.

use vstd::prelude::*;

use crate::addr::{addr_lt, decimal, push_decimal, PeerAddr};
use vstd::string::StringExecFns;
use crate::proto::PingResponse;

verus! {

/// What a scan learned of one peer. The free space is kept in bytes.
#[derive(Clone, Debug)]
pub struct PeerScanResult {
    pub addr: PeerAddr,
    pub online: bool,
    pub hostname: String,
    pub ping_ms: u64,
    pub free_disk_bytes: u64,
    pub version: String,
}

/// The mathematical value of a scan result.
pub struct PeerScanView {
    pub addr: PeerAddr,
    pub online: bool,
    pub hostname: Seq<char>,
    pub ping_ms: u64,
    pub free_disk_bytes: u64,
    pub version: Seq<char>,
}

impl View for PeerScanResult {
    type V = PeerScanView;

    open spec fn view(&self) -> PeerScanView {
        PeerScanView {
            addr: self.addr,
            online: self.online,
            hostname: self.hostname@,
            ping_ms: self.ping_ms,
            free_disk_bytes: self.free_disk_bytes,
            version: self.version@,
        }
    }
}

pub open spec fn scan_views(s: Seq<PeerScanResult>) -> Seq<PeerScanView> {
    s.map_values(|r: PeerScanResult| r@)
}

impl PeerScanResult {
    /// The result of pinging `addr`: online with the daemon's host name,
    /// free space and version and the round trip time when it answered,
    /// else offline with empty text and zeros.
    pub fn from_ping(addr: PeerAddr, reply: Option<PingResponse>, elapsed_ms: u64) -> (r: PeerScanResult)
        ensures
            r.addr == addr,
            match reply {
                Some(resp) => r.online && r.hostname@ == resp.hostname@ && r.ping_ms == elapsed_ms
                    && r.free_disk_bytes == resp.free_disk_bytes && r.version@ == resp.daemon_version@,
                None => !r.online && r.hostname@ == Seq::<char>::empty() && r.ping_ms == 0 && r.free_disk_bytes == 0
                    && r.version@ == Seq::<char>::empty(),
            },
    {
        match reply {
            Some(resp) => PeerScanResult {
                addr,
                online: true,
                hostname: resp.hostname,
                ping_ms: elapsed_ms,
                free_disk_bytes: resp.free_disk_bytes,
                version: resp.daemon_version,
            },
            None => PeerScanResult {
                addr,
                online: false,
                hostname: String::new(),
                ping_ms: 0,
                free_disk_bytes: 0,
                version: String::new(),
            },
        }
    }
}

/// `x` is listed before `y`: online peers first, then the faster answer,
/// then the lower address.
pub open spec fn scan_before(x: PeerScanView, y: PeerScanView) -> bool {
    if x.online != y.online {
        x.online
    } else if x.ping_ms != y.ping_ms {
        x.ping_ms < y.ping_ms
    } else {
        addr_lt(x.addr, y.addr)
    }
}

/// `s` with `x` placed after every element that does not come after it.
pub open spec fn insert_sorted(s: Seq<PeerScanView>, x: PeerScanView) -> Seq<PeerScanView>
    decreases s.len(),
{
    if s.len() == 0 {
        seq![x]
    } else if scan_before(x, s.last()) {
        insert_sorted(s.drop_last(), x).push(s.last())
    } else {
        s.push(x)
    }
}

/// The results in listing order; results that compare equal keep the order
/// in which they came.
pub open spec fn listing_order(s: Seq<PeerScanView>) -> Seq<PeerScanView>
    decreases s.len(),
{
    if s.len() == 0 {
        s
    } else {
        insert_sorted(listing_order(s.drop_last()), s.last())
    }
}

/// Listed in order: no result comes before one listed ahead of it.
pub open spec fn in_listing_order(s: Seq<PeerScanView>) -> bool {
    forall|i: int, j: int| 0 <= i < j < s.len() ==> !scan_before(#[trigger] s[j], #[trigger] s[i])
}

proof fn lemma_before_asym(x: PeerScanView, y: PeerScanView)
    ensures
        scan_before(x, y) ==> !scan_before(y, x),
{
}

proof fn lemma_not_before_trans(x: PeerScanView, y: PeerScanView, z: PeerScanView)
    ensures
        !scan_before(y, x) && !scan_before(z, y) ==> !scan_before(z, x),
{
}

proof fn lemma_insert_members(s: Seq<PeerScanView>, x: PeerScanView)
    ensures
        insert_sorted(s, x).to_multiset() =~= s.to_multiset().insert(x),
        insert_sorted(s, x).len() == s.len() + 1,
        forall|k: int| 0 <= k < insert_sorted(s, x).len() ==> #[trigger] insert_sorted(s, x)[k] == x || s.contains(insert_sorted(s, x)[k]),
    decreases s.len(),
{
    broadcast use vstd::seq_lib::to_multiset_build;
    broadcast use vstd::multiset::group_multiset_axioms;

    if s.len() > 0 && scan_before(x, s.last()) {
        let d = s.drop_last();
        lemma_insert_members(d, x);
        assert(d.push(s.last()) =~= s);
        assert(s.to_multiset() =~= d.to_multiset().insert(s.last()));
        assert(insert_sorted(s, x) == insert_sorted(d, x).push(s.last()));
        assert(insert_sorted(s, x).to_multiset() =~= insert_sorted(d, x).to_multiset().insert(s.last()));
        let r = insert_sorted(s, x);
        assert forall|k: int| 0 <= k < r.len() implies #[trigger] r[k] == x || s.contains(r[k]) by {
            if k < r.len() - 1 {
                let e = insert_sorted(d, x)[k];
                if e != x {
                    let w = choose|w: int| 0 <= w < d.len() && d[w] == e;
                    assert(s[w] == e);
                }
            } else {
                assert(s[s.len() - 1] == r[k]);
            }
        }
    } else if s.len() > 0 {
        let r = insert_sorted(s, x);
        assert forall|k: int| 0 <= k < r.len() implies #[trigger] r[k] == x || s.contains(r[k]) by {
            if k < s.len() {
                assert(s[k] == r[k]);
            }
        }
    } else {
        assert(s =~= Seq::<PeerScanView>::empty());
        assert(seq![x] =~= s.push(x));
    }
}

proof fn lemma_insert_sorted(s: Seq<PeerScanView>, x: PeerScanView)
    requires
        in_listing_order(s),
    ensures
        in_listing_order(insert_sorted(s, x)),
    decreases s.len(),
{
    if s.len() > 0 {
        let last = s.last();
        let r = insert_sorted(s, x);
        if scan_before(x, last) {
            let d = s.drop_last();
            assert forall|i: int, j: int| 0 <= i < j < d.len() implies !scan_before(#[trigger] d[j], #[trigger] d[i]) by {
                assert(d[i] == s[i] && d[j] == s[j]);
            }
            lemma_insert_sorted(d, x);
            lemma_insert_members(d, x);
            let m = insert_sorted(d, x);
            assert forall|i: int, j: int| 0 <= i < j < r.len() implies !scan_before(#[trigger] r[j], #[trigger] r[i]) by {
                if j == r.len() - 1 {
                    assert(r[j] == last);
                    assert(r[i] == m[i]);
                    if m[i] == x {
                        lemma_before_asym(x, last);
                    } else {
                        let w = choose|w: int| 0 <= w < d.len() && d[w] == m[i];
                        assert(s[w] == m[i]);
                        assert(!scan_before(s[s.len() - 1], s[w]));
                    }
                } else {
                    assert(r[i] == m[i] && r[j] == m[j]);
                }
            }
        } else {
            assert forall|i: int, j: int| 0 <= i < j < r.len() implies !scan_before(#[trigger] r[j], #[trigger] r[i]) by {
                if j == r.len() - 1 {
                    assert(r[j] == x);
                    assert(r[i] == s[i]);
                    if i < s.len() - 1 {
                        assert(!scan_before(s[s.len() - 1], s[i]));
                        lemma_not_before_trans(s[i], last, x);
                    }
                } else {
                    assert(r[i] == s[i] && r[j] == s[j]);
                }
            }
        }
    }
}

/// The listing holds the same results as the scan, each as often, and in
/// listing order: online peers first, then by round trip time, then by
/// address.
pub proof fn listing_is_sorted_permutation(s: Seq<PeerScanView>)
    ensures
        listing_order(s).to_multiset() =~= s.to_multiset(),
        in_listing_order(listing_order(s)),
    decreases s.len(),
{
    broadcast use vstd::seq_lib::to_multiset_build;

    if s.len() > 0 {
        listing_is_sorted_permutation(s.drop_last());
        lemma_insert_members(listing_order(s.drop_last()), s.last());
        lemma_insert_sorted(listing_order(s.drop_last()), s.last());
        assert(s.drop_last().push(s.last()) =~= s);
    }
}

fn listed_before(x: &PeerScanResult, y: &PeerScanResult) -> (r: bool)
    ensures
        r == scan_before(x@, y@),
{
    if x.online != y.online {
        x.online
    } else if x.ping_ms != y.ping_ms {
        x.ping_ms < y.ping_ms
    } else {
        x.addr.less_than(&y.addr)
    }
}

/// The listing puts online peers before offline ones; among peers alike in
/// that, the lower ping first; among those alike in both, the lower address
/// first; and it holds the same results as before.
pub proof fn listing_rules(s: Seq<PeerScanView>)
    ensures
        listing_order(s).to_multiset() =~= s.to_multiset(),
        forall|i: int, j: int|
            #![trigger listing_order(s)[i], listing_order(s)[j]]
            0 <= i < j < listing_order(s).len() ==> {
                let x = listing_order(s)[i];
                let y = listing_order(s)[j];
                &&& !(y.online && !x.online)
                &&& x.online == y.online ==> x.ping_ms <= y.ping_ms
                &&& x.online == y.online && x.ping_ms == y.ping_ms ==> !addr_lt(y.addr, x.addr)
            },
{
    listing_is_sorted_permutation(s);
}

/// Sorts the scan results into listing order: online peers first, then by
/// round trip time, then by address; equal results keep their order.
pub fn sort_scan_results(results: Vec<PeerScanResult>) -> (r: Vec<PeerScanResult>)
    ensures
        scan_views(r@) == listing_order(scan_views(results@)),
{
    let ghost orig = scan_views(results@);
    let mut input = results;
    let mut out: Vec<PeerScanResult> = Vec::new();
    let ghost mut i: int = 0;
    while input.len() > 0
        invariant
            0 <= i <= orig.len(),
            scan_views(input@) =~= orig.skip(i),
            scan_views(out@) == listing_order(orig.take(i)),
        decreases input@.len(),
    {
        let ghost before_input = scan_views(input@);
        let ghost raw_input = input@;
        assert(before_input.len() == input@.len());
        assert(before_input[0] == input@[0]@);
        let x = input.remove(0);
        proof {
            assert(before_input[0] == orig[i]);
            assert(x@ == orig[i]);
            assert(orig.take(i + 1).drop_last() =~= orig.take(i));
            assert(input@ == raw_input.remove(0));
            assert(scan_views(input@) =~= before_input.subrange(1, before_input.len() as int));
            assert(scan_views(input@) =~= orig.skip(i + 1));
        }
        let ghost sorted = scan_views(out@);
        let mut j = out.len();
        assert(sorted.take(j as int) =~= sorted);
        assert(sorted.skip(j as int) =~= Seq::<PeerScanView>::empty());
        while j > 0 && listed_before(&x, &out[j - 1])
            invariant
                0 <= j <= out@.len(),
                sorted == scan_views(out@),
                insert_sorted(sorted, x@) =~= insert_sorted(sorted.take(j as int), x@) + sorted.skip(j as int),
            decreases j,
        {
            proof {
                let t = sorted.take(j as int);
                assert(t.drop_last() =~= sorted.take(j - 1));
                assert(t.last() == sorted[j - 1]);
                assert(insert_sorted(t, x@) == insert_sorted(sorted.take(j - 1), x@).push(sorted[j - 1]));
                assert(sorted.skip(j - 1) =~= seq![sorted[j - 1]] + sorted.skip(j as int));
            }
            j -= 1;
        }
        proof {
            let t = sorted.take(j as int);
            if j > 0 {
                assert(t.last() == sorted[j - 1]);
            }
            assert(insert_sorted(t, x@) == t.push(x@));
        }
        out.insert(j, x);
        proof {
            assert(scan_views(out@) =~= sorted.take(j as int).push(x@) + sorted.skip(j as int));
            i = i + 1;
        }
    }
    proof {
        assert(orig.skip(i).len() == 0);
        assert(orig.take(i) =~= orig);
    }
    out
}

/// How many results are online.
pub fn count_online(results: &[PeerScanResult]) -> (n: usize)
    ensures
        n == scan_views(results@).filter(|r: PeerScanView| r.online).len(),
{
    let ghost all = scan_views(results@);
    let mut n: usize = 0;
    let mut i: usize = 0;
    while i < results.len()
        invariant
            0 <= i <= results@.len(),
            all == scan_views(results@),
            n == all.take(i as int).filter(|r: PeerScanView| r.online).len(),
            n <= i,
        decreases results@.len() - i,
    {
        proof {
            assert(all.take(i + 1) =~= all.take(i as int).push(all[i as int]));
            all.take(i as int).lemma_filter_push(all[i as int], |r: PeerScanView| r.online);
        }
        if results[i].online {
            n += 1;
        }
        i += 1;
    }
    assert(all.take(i as int) =~= all);
    n
}

/// The rows of the peer list that are online, by their status labels.
pub fn online_indices(online: &[bool]) -> (r: Vec<usize>)
    ensures
        forall|k: int| 0 <= k < r@.len() ==> (#[trigger] r@[k]) < online@.len() && online@[r@[k] as int],
        forall|i: int| 0 <= i < online@.len() && online@[i] ==> r@.contains(i as usize),
        forall|k: int, l: int| 0 <= k < l < r@.len() ==> r@[k] < r@[l],
{
    let mut r: Vec<usize> = Vec::new();
    let mut i: usize = 0;
    while i < online.len()
        invariant
            0 <= i <= online@.len(),
            forall|k: int| 0 <= k < r@.len() ==> (#[trigger] r@[k]) < i && online@[r@[k] as int],
            forall|m: int| 0 <= m < i && online@[m] ==> r@.contains(m as usize),
            forall|k: int, l: int| 0 <= k < l < r@.len() ==> r@[k] < r@[l],
        decreases online@.len() - i,
    {
        if online[i] {
            let ghost before = r@;
            r.push(i);
            proof {
                assert forall|m: int| 0 <= m < i + 1 && online@[m] implies r@.contains(m as usize) by {
                    if m == i {
                        assert(r@[r@.len() - 1] == i);
                    } else {
                        let w = choose|w: int| 0 <= w < before.len() && before[w] == m as usize;
                        assert(r@[w] == m as usize);
                    }
                }
            }
        }
        i += 1;
    }
    r
}

/// The status line after a scan.
pub fn scan_summary(online: usize, total: usize) -> (r: String)
    ensures
        r@ == "Scan complete \u{2014} "@ + decimal(online as nat) + " of "@ + decimal(total as nat) + " peers online"@,
{
    let mut r = String::new();
    r.append("Scan complete \u{2014} ");
    push_decimal(&mut r, online as u64);
    r.append(" of ");
    push_decimal(&mut r, total as u64);
    r.append(" peers online");
    r
}

/// The status label of a peer in the list.
pub fn status_label(online: bool) -> (r: &'static str)
    ensures
        r@ == (if online { "online"@ } else { "offline"@ }),
{
    if online {
        "online"
    } else {
        "offline"
    }
}

} // verus!
