//! The teacher console's state: the known peers, which of them are
//! selected, and the file chosen for distribution.

use vstd::prelude::*;

use crate::addr::{Ipv4, PeerAddr};

verus! {

/// The known peers, a selection flag per row of the peer list, and the file
/// to distribute. The flags are kept apart from the peers: the list shown may
/// be longer or shorter than the list of known peers.
#[derive(Debug)]
pub struct AppState {
    peer_addresses: Vec<PeerAddr>,
    selected_file: Option<String>,
    selected_peers: Vec<bool>,
}

/// The mathematical value of the state.
pub struct AppStateView {
    pub peers: Seq<PeerAddr>,
    pub selected_file: Option<Seq<char>>,
    pub selected: Seq<bool>,
}

impl View for AppState {
    type V = AppStateView;

    closed spec fn view(&self) -> AppStateView {
        AppStateView {
            peers: self.peer_addresses@,
            selected_file: match self.selected_file {
                Some(s) => Some(s@),
                None => None,
            },
            selected: self.selected_peers@,
        }
    }
}

/// The peers a fresh console knows: 192.168.1.1 to 192.168.1.100, port 50051.
pub open spec fn default_peer_list() -> Seq<PeerAddr> {
    Seq::new(100, |i: int| PeerAddr::V4 { ip: Ipv4 { a: 192, b: 168, c: 1, d: (i + 1) as u8 }, port: 50051 })
}

/// The addresses of the selected rows among the first `n`, in row order.
pub open spec fn selected_among(peers: Seq<PeerAddr>, selected: Seq<bool>, n: int) -> Seq<PeerAddr>
    decreases n,
{
    if n <= 0 {
        Seq::empty()
    } else {
        let rest = selected_among(peers, selected, n - 1);
        if selected[n - 1] {
            rest.push(peers[n - 1])
        } else {
            rest
        }
    }
}

/// The addresses of the selected rows, pairing each row with the peer at
/// the same position, up to the shorter of the two lists.
pub open spec fn selected_addresses(v: AppStateView) -> Seq<PeerAddr> {
    selected_among(v.peers, v.selected, if v.peers.len() <= v.selected.len() { v.peers.len() as int } else { v.selected.len() as int })
}

/// How many of the first `n` flags are set.
pub open spec fn count_set(s: Seq<bool>, n: int) -> nat
    decreases n,
{
    if n <= 0 {
        0
    } else {
        count_set(s, n - 1) + if s[n - 1] { 1nat } else { 0nat }
    }
}

pub open spec fn all_clear(n: nat) -> Seq<bool> {
    Seq::new(n, |i: int| false)
}

impl AppState {
    /// A console that knows the default peers, none selected, and no file.
    pub fn new() -> (r: AppState)
        ensures
            r@.peers == default_peer_list(),
            r@.selected == all_clear(100),
            r@.selected_file is None,
    {
        let mut default_peers: Vec<PeerAddr> = Vec::new();
        let mut i: u8 = 1;
        while i <= 100
            invariant
                1 <= i <= 101,
                default_peers@.len() == i - 1,
                forall|k: int| 0 <= k < i - 1 ==> #[trigger] default_peers@[k] == default_peer_list()[k],
            decreases 101 - i,
        {
            default_peers.push(PeerAddr::v4(192, 168, 1, i, 50051));
            i += 1;
        }
        let count = default_peers.len();
        let r = AppState { peer_addresses: default_peers, selected_file: None, selected_peers: clear_flags(count) };
        assert(r@.peers =~= default_peer_list());
        r
    }

    /// The known peers.
    pub fn peers(&self) -> (r: Vec<PeerAddr>)
        ensures
            r@ == self@.peers,
    {
        let mut r: Vec<PeerAddr> = Vec::new();
        let mut i: usize = 0;
        while i < self.peer_addresses.len()
            invariant
                0 <= i <= self.peer_addresses@.len(),
                r@ =~= self.peer_addresses@.take(i as int),
            decreases self.peer_addresses@.len() - i,
        {
            r.push(self.peer_addresses[i]);
            i += 1;
        }
        assert(self.peer_addresses@.take(i as int) =~= self.peer_addresses@);
        r
    }

    /// Replaces the known peers; every row is deselected, one per peer.
    pub fn replace_peers(&mut self, peers: Vec<PeerAddr>)
        ensures
            final(self)@.peers == peers@,
            final(self)@.selected == all_clear(peers@.len()),
            final(self)@.selected_file == old(self)@.selected_file,
    {
        let count = peers.len();
        self.peer_addresses = peers;
        self.selected_peers = clear_flags(count);
    }

    /// Chooses the file to distribute.
    pub fn set_selected_file(&mut self, path: String)
        ensures
            final(self)@.selected_file == Some(path@),
            final(self)@.peers == old(self)@.peers,
            final(self)@.selected == old(self)@.selected,
    {
        self.selected_file = Some(path);
    }

    /// The file chosen for distribution, if any.
    pub fn selected_file(&self) -> (r: Option<String>)
        ensures
            match r {
                Some(s) => self@.selected_file == Some(s@),
                None => self@.selected_file is None,
            },
    {
        match &self.selected_file {
            Some(s) => Some(s.clone()),
            None => None,
        }
    }

    /// Selects or deselects row `idx`; a row past the end is ignored.
    pub fn set_peer_selected(&mut self, idx: usize, selected: bool)
        ensures
            final(self)@.selected == if idx < old(self)@.selected.len() {
                old(self)@.selected.update(idx as int, selected)
            } else {
                old(self)@.selected
            },
            final(self)@.peers == old(self)@.peers,
            final(self)@.selected_file == old(self)@.selected_file,
    {
        if idx < self.selected_peers.len() {
            self.selected_peers.set(idx, selected);
        }
    }

    /// Selects every listed row; indices past the end are ignored.
    pub fn select_all_online(&mut self, online_indices: &[usize])
        ensures
            final(self)@.selected.len() == old(self)@.selected.len(),
            forall|i: int| 0 <= i < old(self)@.selected.len() ==> #[trigger] final(self)@.selected[i]
                == (old(self)@.selected[i] || online_indices@.contains(i as usize)),
            final(self)@.peers == old(self)@.peers,
            final(self)@.selected_file == old(self)@.selected_file,
    {
        let ghost before = self@.selected;
        let mut k: usize = 0;
        while k < online_indices.len()
            invariant
                0 <= k <= online_indices@.len(),
                self@.peers == old(self)@.peers,
                self@.selected_file == old(self)@.selected_file,
                before == old(self)@.selected,
                self@.selected.len() == before.len(),
                forall|i: int| 0 <= i < before.len() ==> #[trigger] self@.selected[i]
                    == (before[i] || online_indices@.take(k as int).contains(i as usize)),
            decreases online_indices@.len() - k,
        {
            let idx = online_indices[k];
            if idx < self.selected_peers.len() {
                self.selected_peers.set(idx, true);
            }
            proof {
                let t1 = online_indices@.take(k + 1);
                let t0 = online_indices@.take(k as int);
                assert(t1 =~= t0.push(idx));
                assert forall|i: int| 0 <= i < before.len() implies (#[trigger] t1.contains(i as usize) <==> (t0.contains(i as usize) || i == idx)) by {
                    if t1.contains(i as usize) {
                        let w = choose|w: int| 0 <= w < t1.len() && t1[w] == i as usize;
                        if w < k {
                            assert(t0[w] == i as usize);
                        }
                    }
                    if t0.contains(i as usize) {
                        let w = choose|w: int| 0 <= w < t0.len() && t0[w] == i as usize;
                        assert(t1[w] == i as usize);
                    }
                    if i == idx {
                        assert(t1[k as int] == idx);
                    }
                }
            }
            k += 1;
        }
        assert(online_indices@.take(k as int) =~= online_indices@);
    }

    /// Deselects every row.
    pub fn deselect_all(&mut self)
        ensures
            final(self)@.selected == all_clear(old(self)@.selected.len()),
            final(self)@.peers == old(self)@.peers,
            final(self)@.selected_file == old(self)@.selected_file,
    {
        let mut i: usize = 0;
        while i < self.selected_peers.len()
            invariant
                0 <= i <= self.selected_peers@.len(),
                self@.peers == old(self)@.peers,
                self@.selected_file == old(self)@.selected_file,
                self@.selected.len() == old(self)@.selected.len(),
                forall|k: int| 0 <= k < i ==> !#[trigger] self@.selected[k],
            decreases self.selected_peers@.len() - i,
        {
            self.selected_peers.set(i, false);
            i += 1;
        }
        assert(self@.selected =~= all_clear(old(self)@.selected.len()));
    }

    /// The addresses of the selected rows, in row order.
    pub fn selected_peer_addresses(&self) -> (r: Vec<PeerAddr>)
        ensures
            r@ == selected_addresses(self@),
    {
        let n = if self.peer_addresses.len() <= self.selected_peers.len() {
            self.peer_addresses.len()
        } else {
            self.selected_peers.len()
        };
        let mut r: Vec<PeerAddr> = Vec::new();
        let mut i: usize = 0;
        while i < n
            invariant
                0 <= i <= n,
                n <= self.peer_addresses@.len(),
                n <= self.selected_peers@.len(),
                r@ == selected_among(self@.peers, self@.selected, i as int),
            decreases n - i,
        {
            if self.selected_peers[i] {
                r.push(self.peer_addresses[i]);
            }
            i += 1;
        }
        r
    }

    /// Whether row `idx` is selected; a row past the end is not.
    pub fn is_selected(&self, idx: usize) -> (r: bool)
        ensures
            r == (idx < self@.selected.len() && self@.selected[idx as int]),
    {
        if idx < self.selected_peers.len() {
            self.selected_peers[idx]
        } else {
            false
        }
    }

    /// How many rows are selected.
    pub fn selected_count(&self) -> (r: usize)
        ensures
            r == count_set(self@.selected, self@.selected.len() as int),
    {
        let mut count: usize = 0;
        let mut i: usize = 0;
        while i < self.selected_peers.len()
            invariant
                0 <= i <= self.selected_peers@.len(),
                count == count_set(self@.selected, i as int),
                count <= i,
            decreases self.selected_peers@.len() - i,
        {
            if self.selected_peers[i] {
                count += 1;
            }
            i += 1;
        }
        count
    }

    /// Makes the selection `count` rows long: rows past `count` are dropped,
    /// new rows are not selected.
    pub fn resize_selection(&mut self, count: usize)
        ensures
            final(self)@.selected.len() == count,
            forall|i: int| 0 <= i < count ==> #[trigger] final(self)@.selected[i]
                == (i < old(self)@.selected.len() && old(self)@.selected[i]),
            final(self)@.peers == old(self)@.peers,
            final(self)@.selected_file == old(self)@.selected_file,
    {
        if count <= self.selected_peers.len() {
            self.selected_peers.truncate(count);
        } else {
            while self.selected_peers.len() < count
                invariant
                    self@.peers == old(self)@.peers,
                    self@.selected_file == old(self)@.selected_file,
                    old(self)@.selected.len() <= self@.selected.len() <= count,
                    forall|i: int| 0 <= i < self@.selected.len() ==> #[trigger] self@.selected[i]
                        == (i < old(self)@.selected.len() && old(self)@.selected[i]),
                decreases count - self@.selected.len(),
            {
                self.selected_peers.push(false);
            }
        }
    }
}

/// When there is one row per peer, the count of selected rows is the number
/// of selected addresses.
pub proof fn selected_count_matches_addresses(v: AppStateView)
    requires
        v.peers.len() == v.selected.len(),
    ensures
        count_set(v.selected, v.selected.len() as int) == selected_addresses(v).len(),
{
    lemma_count_matches(v.peers, v.selected, v.selected.len() as int);
}

proof fn lemma_count_matches(peers: Seq<PeerAddr>, selected: Seq<bool>, n: int)
    ensures
        count_set(selected, n) == selected_among(peers, selected, n).len(),
    decreases n,
{
    if n > 0 {
        lemma_count_matches(peers, selected, n - 1);
    }
}

/// With every row cleared nothing is selected and no address is picked.
pub proof fn cleared_selection_is_empty(peers: Seq<PeerAddr>, n: nat)
    ensures
        count_set(all_clear(n), n as int) == 0,
        selected_addresses(AppStateView { peers, selected_file: None, selected: all_clear(n) }).len() == 0,
{
    lemma_clear_count(n, n as int);
    let v = AppStateView { peers, selected_file: None, selected: all_clear(n) };
    let m = if v.peers.len() <= v.selected.len() { v.peers.len() as int } else { v.selected.len() as int };
    lemma_clear_among(peers, n, m);
}

proof fn lemma_clear_count(n: nat, k: int)
    requires
        k <= n,
    ensures
        count_set(all_clear(n), k) == 0,
    decreases k,
{
    if k > 0 {
        lemma_clear_count(n, k - 1);
    }
}

proof fn lemma_clear_among(peers: Seq<PeerAddr>, n: nat, k: int)
    requires
        k <= n,
    ensures
        selected_among(peers, all_clear(n), k).len() == 0,
    decreases k,
{
    if k > 0 {
        lemma_clear_among(peers, n, k - 1);
    }
}

/// `n` cleared flags.
fn clear_flags(n: usize) -> (r: Vec<bool>)
    ensures
        r@ == all_clear(n as nat),
{
    let mut r: Vec<bool> = Vec::new();
    let mut i: usize = 0;
    while i < n
        invariant
            0 <= i <= n,
            r@ =~= all_clear(i as nat),
        decreases n - i,
    {
        r.push(false);
        i += 1;
    }
    r
}

} // verus!
