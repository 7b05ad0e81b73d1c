//! The teacher's distribution plan: which file, which tree, and what each
//! selected peer is told to download and forward.

use vstd::prelude::*;

use crate::addr::{addr_text, decimal, push_decimal, parse_addr, parse_reads_back_text, Ipv4, PeerAddr};
use vstd::string::StringExecFns;
use vstd::utf8::encode_utf8;
use crate::app_state::{selected_addresses, AppState};
use crate::digest::{hex_encode, hex_text, prefix, sha256, sha256_of};
use crate::proto::{texts, DownloadInstruction, DownloadInstructionView};
use crate::topology::{build_spec, is_first_at, lemma_first_unique, DistributionTree, NodeView};
use crate::transport::QUIC_PORT;

verus! {

/// The TCP port on which daemons take instructions.
pub const GRPC_PORT: u16 = 50051;

/// How many children each node of the distribution tree feeds.
pub const BRANCHING_FACTOR: usize = 2;

/// The teacher's own place in the tree: any address, the QUIC port.
pub open spec fn teacher_addr() -> PeerAddr {
    PeerAddr::V4 { ip: Ipv4 { a: 0, b: 0, c: 0, d: 0 }, port: QUIC_PORT }
}

/// The teacher's address in the tree, `0.0.0.0:50052`.
pub fn teacher_quic() -> (r: PeerAddr)
    ensures
        r == teacher_addr(),
{
    PeerAddr::v4(0, 0, 0, 0, QUIC_PORT)
}

/// Why a distribution cannot start.
#[derive(Clone, Copy, Debug, PartialEq, Eq, Structural)]
pub enum DistributionError {
    NoFileSelected,
    NoPeersSelected,
}

impl DistributionError {
    /// The status line shown for the error.
    pub fn message(&self) -> (r: &'static str)
        ensures
            r@ == (match self {
                DistributionError::NoFileSelected => "No file selected"@,
                DistributionError::NoPeersSelected => "No peers selected"@,
            }),
    {
        match self {
            DistributionError::NoFileSelected => "No file selected",
            DistributionError::NoPeersSelected => "No peers selected",
        }
    }
}

/// The chosen file and the selected peers, or why there is nothing to
/// distribute: no file chosen, or (with a file) no peer selected.
pub fn check_selection(state: &AppState) -> (r: Result<(String, Vec<PeerAddr>), DistributionError>)
    ensures
        match r {
            Ok((file, peers)) => state@.selected_file == Some(file@) && peers@ == selected_addresses(state@)
                && peers@.len() > 0,
            Err(DistributionError::NoFileSelected) => state@.selected_file is None,
            Err(DistributionError::NoPeersSelected) => state@.selected_file is Some
                && selected_addresses(state@).len() == 0,
        },
{
    let file = match state.selected_file() {
        Some(f) => f,
        None => {
            return Err(DistributionError::NoFileSelected);
        },
    };
    let peers = state.selected_peer_addresses();
    if peers.len() == 0 {
        return Err(DistributionError::NoPeersSelected);
    }
    Ok((file, peers))
}

/// The selected peers, each at the QUIC port.
pub open spec fn quic_peers(selected: Seq<PeerAddr>) -> Seq<PeerAddr> {
    selected.map_values(|a: PeerAddr| a.with_port(QUIC_PORT))
}

/// An instruction and the daemon it is for.
pub struct NodeInstruction {
    pub grpc_addr: PeerAddr,
    pub instruction: DownloadInstruction,
}

pub struct NodeInstructionView {
    pub grpc_addr: PeerAddr,
    pub instruction: DownloadInstructionView,
}

pub open spec fn instruction_views(v: Seq<NodeInstruction>) -> Seq<NodeInstructionView> {
    v.map_values(|x: NodeInstruction| NodeInstructionView { grpc_addr: x.grpc_addr, instruction: x.instruction@ })
}

/// What node `n` is told: download the file from its parent (the teacher
/// when it has none) and forward it to its children; the daemon is reached
/// at the node's IP address and the instruction port.
pub open spec fn instruction_for(
    n: NodeView,
    file_id: Seq<char>,
    file_name: Seq<char>,
    file_size: u64,
    file_hash: Seq<u8>,
) -> NodeInstructionView {
    NodeInstructionView {
        grpc_addr: n.addr.with_port(GRPC_PORT),
        instruction: DownloadInstructionView {
            file_id,
            file_name,
            file_size,
            file_hash,
            parent_address: addr_text(
                match n.parent {
                    Some(p) => p,
                    None => teacher_addr(),
                },
            ),
            children_addresses: n.children.map_values(|c: PeerAddr| addr_text(c)),
        },
    }
}

pub open spec fn not_teacher() -> spec_fn(NodeView) -> bool {
    |n: NodeView| n.addr != teacher_addr()
}

/// Everything the teacher needs to run a distribution.
pub struct DistributionPlan {
    pub file_hash: [u8; 32],
    /// The first 8 bytes of the digest, in hexadecimal.
    pub file_id: String,
    /// The first 16 bytes of the digest, in hexadecimal, and an ellipsis.
    pub hash_display: String,
    pub tree: DistributionTree,
    /// One instruction per node other than the teacher, in node order.
    pub instructions: Vec<NodeInstruction>,
    /// The nodes the teacher streams the file to itself.
    pub root_children: Vec<PeerAddr>,
}

/// The plan for a file with the given digest: the binary tree over the
/// selected peers (at the QUIC port) below the teacher, an instruction for
/// every node but the teacher, and the teacher's own children.
pub fn plan_with_hash(selected_peers: &[PeerAddr], file_name: &String, file_size: u64, file_hash: [u8; 32]) -> (p: DistributionPlan)
    requires
        selected_peers@.len() < usize::MAX,
    ensures
        p.file_hash@ == file_hash@,
        p.file_id@ == hex_text(file_hash@.take(8)),
        p.hash_display@ == hex_text(file_hash@.take(16)).push('\u{2026}'),
        p.tree@ == build_spec(teacher_addr(), quic_peers(selected_peers@), BRANCHING_FACTOR),
        instruction_views(p.instructions@) == p.tree@.nodes.filter(not_teacher()).map_values(
            |n: NodeView| instruction_for(n, p.file_id@, file_name@, file_size, file_hash@),
        ),
        p.root_children@ == p.tree@.nodes[0].children,
{
    let first8 = prefix(file_hash.as_slice(), 8);
    let file_id = hex_encode(first8.as_slice());
    let first16 = prefix(file_hash.as_slice(), 16);
    let mut hash_display = hex_encode(first16.as_slice());
    crate::addr::push_char(&mut hash_display, '\u{2026}');

    let teacher = teacher_quic();
    let mut quic: Vec<PeerAddr> = Vec::new();
    let mut q: usize = 0;
    while q < selected_peers.len()
        invariant
            0 <= q <= selected_peers@.len(),
            quic@ =~= quic_peers(selected_peers@.take(q as int)),
        decreases selected_peers@.len() - q,
    {
        quic.push(selected_peers[q].with_port(QUIC_PORT));
        q += 1;
    }
    assert(selected_peers@.take(q as int) =~= selected_peers@);

    let tree = DistributionTree::build(teacher, quic.as_slice(), BRANCHING_FACTOR);
    let ghost nodes = tree@.nodes;
    let ghost f = |n: NodeView| instruction_for(n, file_id@, file_name@, file_size, file_hash@);

    let mut instructions: Vec<NodeInstruction> = Vec::new();
    let mut i: usize = 0;
    while i < tree.nodes.len()
        invariant
            0 <= i <= tree.nodes@.len(),
            nodes == tree@.nodes,
            f == (|n: NodeView| instruction_for(n, file_id@, file_name@, file_size, file_hash@)),
            teacher == teacher_addr(),
            instruction_views(instructions@) =~= nodes.take(i as int).filter(not_teacher()).map_values(f),
        decreases tree.nodes@.len() - i,
    {
        let ghost prev = instruction_views(instructions@);
        let ghost filt = nodes.take(i as int).filter(not_teacher());
        proof {
            assert(nodes.take(i + 1) =~= nodes.take(i as int).push(nodes[i as int]));
            nodes.take(i as int).lemma_filter_push(nodes[i as int], not_teacher());
        }
        let node = &tree.nodes[i];
        assert(node@ == nodes[i as int]);
        if node.addr != teacher {
            let grpc_addr = node.addr.with_port(GRPC_PORT);
            let parent = match node.parent {
                Some(p) => p,
                None => teacher,
            };
            let mut children: Vec<String> = Vec::new();
            let mut c: usize = 0;
            while c < node.children.len()
                invariant
                    0 <= c <= node.children@.len(),
                    texts(children@) =~= node.children@.take(c as int).map_values(|a: PeerAddr| addr_text(a)),
                decreases node.children@.len() - c,
            {
                let ghost before = children@;
                let text = node.children[c].to_string();
                children.push(text);
                assert(texts(children@) =~= texts(before).push(text@));
                assert(node.children@.take(c + 1) =~= node.children@.take(c as int).push(node.children@[c as int]));
                c += 1;
            }
            assert(node.children@.take(c as int) =~= node.children@);
            let instruction = DownloadInstruction {
                file_id: file_id.clone(),
                file_name: file_name.clone(),
                file_size,
                file_hash: prefix(file_hash.as_slice(), 32),
                parent_address: parent.to_string(),
                children_addresses: children,
            };
            assert(file_hash@.take(32) =~= file_hash@);
            instructions.push(NodeInstruction { grpc_addr, instruction });
            proof {
                assert(instruction_views(instructions@) =~= prev.push(f(nodes[i as int])));
                assert(filt.push(nodes[i as int]).map_values(f) =~= filt.map_values(f).push(f(nodes[i as int])));
            }
        }
        i += 1;
    }
    assert(nodes.take(i as int) =~= nodes);

    let found = tree.find_node(teacher);
    assert(is_first_at(nodes, teacher, 0));
    let root_children = match found {
        Some(n) => {
            proof {
                let j = choose|j: int| is_first_at(nodes, teacher, j) && n@ == nodes[j];
                lemma_first_unique(nodes, teacher, j, 0);
            }
            copy_addrs(&n.children)
        },
        None => Vec::new(),
    };
    DistributionPlan { file_hash, file_id, hash_display, tree, instructions, root_children }
}

/// The plan for the given file contents: their SHA-256 digest, then
/// `plan_with_hash`.
pub fn plan_distribution(selected_peers: &[PeerAddr], file_name: &String, file_size: u64, file_bytes: &[u8]) -> (p: DistributionPlan)
    requires
        selected_peers@.len() < usize::MAX,
    ensures
        p.file_hash@ == sha256_of(file_bytes@),
        p.file_id@ == hex_text(sha256_of(file_bytes@).take(8)),
        p.hash_display@ == hex_text(sha256_of(file_bytes@).take(16)).push('\u{2026}'),
        p.tree@ == build_spec(teacher_addr(), quic_peers(selected_peers@), BRANCHING_FACTOR),
        instruction_views(p.instructions@) == p.tree@.nodes.filter(not_teacher()).map_values(
            |n: NodeView| instruction_for(n, p.file_id@, file_name@, file_size, sha256_of(file_bytes@)),
        ),
        p.root_children@ == p.tree@.nodes[0].children,
{
    let file_hash = sha256(file_bytes);
    plan_with_hash(selected_peers, file_name, file_size, file_hash)
}

/// Each instruction names a parent that the daemon reads back as the node's
/// parent in the tree (the teacher for a node without one), where that
/// parent carries no IPv6 flow label.
pub proof fn instruction_parent_reads_back(
    n: NodeView,
    file_id: Seq<char>,
    file_name: Seq<char>,
    file_size: u64,
    file_hash: Seq<u8>,
)
    requires
        n.parent matches Some(p) ==> (p matches PeerAddr::V6 { flowinfo, .. } ==> flowinfo == 0),
    ensures
        parse_addr(encode_utf8(instruction_for(n, file_id, file_name, file_size, file_hash).instruction.parent_address))
            == Some(
            match n.parent {
                Some(p) => p,
                None => teacher_addr(),
            },
        ),
{
    parse_reads_back_text(
        match n.parent {
            Some(p) => p,
            None => teacher_addr(),
        },
    );
}

/// In the tree of a distribution, every node's instruction names a parent
/// that the daemon reads back as the node's parent (the teacher for the
/// root): the tree holds no address with an IPv6 flow label.
pub proof fn planned_parents_read_back(
    selected: Seq<PeerAddr>,
    k: int,
    file_id: Seq<char>,
    file_name: Seq<char>,
    file_size: u64,
    file_hash: Seq<u8>,
)
    requires
        0 <= k <= selected.len(),
    ensures
        ({
            let n = build_spec(teacher_addr(), quic_peers(selected), BRANCHING_FACTOR).nodes[k];
            parse_addr(encode_utf8(instruction_for(n, file_id, file_name, file_size, file_hash).instruction.parent_address))
                == Some(
                match n.parent {
                    Some(p) => p,
                    None => teacher_addr(),
                },
            )
        }),
{
    let peers = quic_peers(selected);
    let n = build_spec(teacher_addr(), peers, BRANCHING_FACTOR).nodes[k];
    if k > 0 {
        let j = (k - 1) / 2;
        assert(0 <= j < k);
        if j > 0 {
            assert(peers[j - 1] == selected[j - 1].with_port(QUIC_PORT));
        }
    }
    instruction_parent_reads_back(n, file_id, file_name, file_size, file_hash);
}

proof fn lemma_filter_all_but_first(s: Seq<NodeView>)
    requires
        s.len() >= 1,
        s[0].addr == teacher_addr(),
        forall|i: int| 1 <= i < s.len() ==> #[trigger] s[i].addr != teacher_addr(),
    ensures
        s.filter(not_teacher()) == s.drop_first(),
    decreases s.len(),
{
    reveal(Seq::filter);
    if s.len() == 1 {
        assert(s.last() == s[0]);
        assert(!(not_teacher())(s.last()));
        assert(s.drop_last().filter(not_teacher()) =~= Seq::<NodeView>::empty());
        assert(s.drop_first() =~= Seq::<NodeView>::empty());
    } else {
        let d = s.drop_last();
        assert forall|i: int| 1 <= i < d.len() implies #[trigger] d[i].addr != teacher_addr() by {
            assert(d[i] == s[i]);
        }
        lemma_filter_all_but_first(d);
        assert(s.last() == s[s.len() - 1]);
        assert((not_teacher())(s.last()));
        assert(d.drop_first().push(s.last()) =~= s.drop_first());
    }
}

/// When no selected peer, moved to the QUIC port, is the teacher's own
/// address, every selected peer gets exactly one instruction, in selection
/// order, sent to its IP address at the instruction port.
pub proof fn every_selected_peer_instructed(
    selected: Seq<PeerAddr>,
    file_id: Seq<char>,
    file_name: Seq<char>,
    file_size: u64,
    file_hash: Seq<u8>,
)
    requires
        forall|i: int| 0 <= i < selected.len() ==> #[trigger] selected[i].with_port(QUIC_PORT) != teacher_addr(),
    ensures
        ({
            let nodes = build_spec(teacher_addr(), quic_peers(selected), BRANCHING_FACTOR).nodes;
            let instructed = nodes.filter(not_teacher()).map_values(
                |n: NodeView| instruction_for(n, file_id, file_name, file_size, file_hash),
            );
            &&& instructed.len() == selected.len()
            &&& forall|k: int| 0 <= k < selected.len() ==> #[trigger] instructed[k].grpc_addr == selected[k].with_port(GRPC_PORT)
        }),
{
    let nodes = build_spec(teacher_addr(), quic_peers(selected), BRANCHING_FACTOR).nodes;
    assert forall|i: int| 1 <= i < nodes.len() implies #[trigger] nodes[i].addr != teacher_addr() by {
        assert(nodes[i].addr == quic_peers(selected)[i - 1]);
        assert(selected[i - 1].with_port(QUIC_PORT) != teacher_addr());
    }
    lemma_filter_all_but_first(nodes);
}

/// Appends a string literal.
fn push_str(s: &mut String, t: &str)
    ensures
        final(s)@ == old(s)@ + t@,
{
    s.append(t);
}

/// The status line while instructions are prepared.
pub fn preparing_status(peer_count: usize) -> (r: String)
    ensures
        r@ == "Preparing distribution to "@ + decimal(peer_count as nat) + " peers..."@,
{
    let mut r = String::new();
    push_str(&mut r, "Preparing distribution to ");
    push_decimal(&mut r, peer_count as u64);
    push_str(&mut r, " peers...");
    r
}

/// The status line once the instructions are sent: a warning with the
/// number of daemons that could not be reached, or the go-ahead.
pub fn readiness_status(unreachable: u32) -> (r: String)
    ensures
        r@ == (if unreachable > 0 {
            "\u{26a0} "@ + decimal(unreachable as nat) + " peers unreachable, sending to remaining..."@
        } else {
            "All peers ready \u{2014} streaming file..."@
        }),
{
    let mut r = String::new();
    if unreachable > 0 {
        push_str(&mut r, "\u{26a0} ");
        push_decimal(&mut r, unreachable as u64);
        push_str(&mut r, " peers unreachable, sending to remaining...");
    } else {
        push_str(&mut r, "All peers ready \u{2014} streaming file...");
    }
    r
}

/// The status line while the teacher streams to its `index`-th child (from
/// zero) of `total`.
pub fn streaming_status(index: usize, total: usize, child: &PeerAddr) -> (r: String)
    requires
        index < total,
    ensures
        r@ == "Streaming to root child "@ + decimal((index + 1) as nat) + "/"@ + decimal(total as nat) + " ("@
            + addr_text(*child) + ")"@,
{
    let mut r = String::new();
    push_str(&mut r, "Streaming to root child ");
    push_decimal(&mut r, (index + 1) as u64);
    push_str(&mut r, "/");
    push_decimal(&mut r, total as u64);
    push_str(&mut r, " (");
    let text = child.to_string();
    push_str(&mut r, text.as_str());
    push_str(&mut r, ")");
    r
}

/// The status line when the distribution is over.
pub fn completion_status(file_name: &str, peer_count: usize) -> (r: String)
    ensures
        r@ == "\u{2705} Distribution complete \u{2014} "@ + file_name@ + " sent to "@ + decimal(peer_count as nat)
            + " peers"@,
{
    let mut r = String::new();
    push_str(&mut r, "\u{2705} Distribution complete \u{2014} ");
    push_str(&mut r, file_name);
    push_str(&mut r, " sent to ");
    push_decimal(&mut r, peer_count as u64);
    push_str(&mut r, " peers");
    r
}

fn copy_addrs(v: &Vec<PeerAddr>) -> (r: Vec<PeerAddr>)
    ensures
        r@ == v@,
{
    let mut r: Vec<PeerAddr> = Vec::new();
    let mut i: usize = 0;
    while i < v.len()
        invariant
            0 <= i <= v@.len(),
            r@ =~= v@.take(i as int),
        decreases v@.len() - i,
    {
        r.push(v[i]);
        i += 1;
    }
    assert(v@.take(i as int) =~= v@);
    r
}

} // verus!
