//! The passive-skill-graph ("PSG") format: a fixed header, a list of root
//! node ids, and groups of nodes positioned on a plane, each node carrying
//! its connections to other nodes.

use crate::error::ArchiveError;
use crate::wire::{le32_at, read_u32};
use vstd::prelude::*;

verus! {

/// A parsed graph: the root node ids and the node groups.
#[derive(Debug, Clone)]
pub struct PsgFile {
    pub roots: Vec<u32>,
    pub groups: Vec<PsgGroup>,
}

/// One group of nodes. `x` and `y` hold the IEEE-754 bit patterns of the
/// group's stored 32-bit coordinates.
#[derive(Debug, Clone)]
pub struct PsgGroup {
    pub x: u32,
    pub y: u32,
    pub nodes: Vec<PsgNode>,
}

/// One node: its row id, radius, position within the group, and the ids of
/// the nodes it connects to.
#[derive(Debug, Clone)]
pub struct PsgNode {
    pub skill_id: u32,
    pub radius: u32,
    pub position: u32,
    pub connections: Vec<u32>,
}

/// The mathematical value of a node.
pub struct PsgNodeV {
    pub skill_id: u32,
    pub radius: u32,
    pub position: u32,
    pub connections: Seq<u32>,
}

impl View for PsgNode {
    type V = PsgNodeV;

    open spec fn view(&self) -> PsgNodeV {
        PsgNodeV {
            skill_id: self.skill_id,
            radius: self.radius,
            position: self.position,
            connections: self.connections@,
        }
    }
}

/// The mathematical value of a group.
pub struct PsgGroupV {
    pub x: u32,
    pub y: u32,
    pub nodes: Seq<PsgNodeV>,
}

impl View for PsgGroup {
    type V = PsgGroupV;

    open spec fn view(&self) -> PsgGroupV {
        PsgGroupV { x: self.x, y: self.y, nodes: self.nodes@.map_values(|n: PsgNode| n@) }
    }
}

/// `n` connection records of 8 bytes each (target id, curvature; the
/// curvature is read and discarded), parsed from `pos`.
pub open spec fn parse_conns(d: Seq<u8>, pos: int, n: int) -> Option<(Seq<u32>, int)>
    decreases n,
{
    if n <= 0 {
        Some((Seq::empty(), pos))
    } else if pos + 8 > d.len() {
        None
    } else {
        match parse_conns(d, pos + 8, n - 1) {
            None => None,
            Some((rest, end)) => Some((seq![le32_at(d, pos)] + rest, end)),
        }
    }
}

/// `n` node records parsed from `pos`: row id, radius, position, connection
/// count, then that many connection records.
pub open spec fn parse_nodes(d: Seq<u8>, pos: int, n: int) -> Option<(Seq<PsgNodeV>, int)>
    decreases n,
{
    if n <= 0 {
        Some((Seq::empty(), pos))
    } else if pos + 16 > d.len() {
        None
    } else {
        let cl = le32_at(d, pos + 12);
        match parse_conns(d, pos + 16, cl as int) {
            None => None,
            Some((conns, p2)) => {
                let node = PsgNodeV {
                    skill_id: le32_at(d, pos),
                    radius: le32_at(d, pos + 4),
                    position: le32_at(d, pos + 8),
                    connections: conns,
                };
                match parse_nodes(d, p2, n - 1) {
                    None => None,
                    Some((rest, end)) => Some((seq![node] + rest, end)),
                }
            },
        }
    }
}

/// `n` group records parsed from `pos`: the two 32-bit coordinates, a flag
/// word, a reserved word, a reserved byte, the node count, then the nodes.
pub open spec fn parse_groups(d: Seq<u8>, pos: int, n: int) -> Option<(Seq<PsgGroupV>, int)>
    decreases n,
{
    if n <= 0 {
        Some((Seq::empty(), pos))
    } else if pos + 21 > d.len() {
        None
    } else {
        let nl = le32_at(d, pos + 17);
        match parse_nodes(d, pos + 21, nl as int) {
            None => None,
            Some((nodes, p2)) => {
                let g = PsgGroupV { x: le32_at(d, pos), y: le32_at(d, pos + 4), nodes };
                match parse_groups(d, p2, n - 1) {
                    None => None,
                    Some((rest, end)) => Some((seq![g] + rest, end)),
                }
            },
        }
    }
}

/// The whole graph: a 13-byte header is skipped; then the root count and the
/// roots (8 bytes each, id and curvature); then the group count and the
/// groups. `None` stands for a truncated buffer; a root count above 1000 is
/// rejected separately.
pub open spec fn parse_psg_spec(d: Seq<u8>) -> Option<(Seq<u32>, Seq<PsgGroupV>)> {
    if d.len() < 17 {
        None
    } else {
        let rl = le32_at(d, 13);
        match parse_conns(d, 17, rl as int) {
            None => None,
            Some((roots, p1)) => {
                if p1 + 4 > d.len() {
                    None
                } else {
                    let gl = le32_at(d, p1);
                    match parse_groups(d, p1 + 4, gl as int) {
                        None => None,
                        Some((groups, _)) => Some((roots, groups)),
                    }
                }
            },
        }
    }
}

/// Reads `n` connection records at `pos`.
fn read_conns(data: &[u8], pos: usize, n: u32) -> (r: Result<(Vec<u32>, usize), ArchiveError>)
    requires
        pos <= data@.len(),
    ensures
        match r {
            Ok((conns, end)) => parse_conns(data@, pos as int, n as int) == Some(
                (conns@, end as int),
            ) && pos <= end <= data@.len(),
            Err(e) => parse_conns(data@, pos as int, n as int) is None && e
                == ArchiveError::OutOfBounds,
        },
{
    let len = data.len();
    let mut conns: Vec<u32> = Vec::new();
    let mut p = pos;
    let mut k: u32 = 0;
    while k < n
        invariant
            len == data@.len(),
            k <= n,
            pos <= p <= len,
            parse_conns(data@, p as int, n - k) matches Some((rest, end)) ==> parse_conns(
                data@,
                pos as int,
                n as int,
            ) == Some((conns@ + rest, end)),
            parse_conns(data@, p as int, n - k) is None ==> parse_conns(
                data@,
                pos as int,
                n as int,
            ) is None,
        decreases n - k,
    {
        if len - p < 8 {
            return Err(ArchiveError::OutOfBounds);
        }
        let ghost old_p = p as int;
        let ghost prev = conns@;
        let c = read_u32(data, p);
        conns.push(c);
        p = p + 8;
        k = k + 1;
        proof {
            let pc = parse_conns(data@, p as int, n - k);
            if pc is Some {
                let rest = pc.unwrap().0;
                assert(parse_conns(data@, old_p, n - (k - 1)) == Some(
                    (seq![le32_at(data@, old_p)] + rest, pc.unwrap().1),
                ));
                assert((prev + (seq![le32_at(data@, old_p)] + rest)) =~= (conns@ + rest));
            }
        }
    }
    proof {
        assert(conns@ + Seq::<u32>::empty() =~= conns@);
    }
    Ok((conns, p))
}

/// Reads `n` node records at `pos`.
fn read_nodes(data: &[u8], pos: usize, n: u32) -> (r: Result<(Vec<PsgNode>, usize), ArchiveError>)
    requires
        pos <= data@.len(),
    ensures
        match r {
            Ok((nodes, end)) => parse_nodes(data@, pos as int, n as int) == Some(
                (nodes@.map_values(|x: PsgNode| x@), end as int),
            ) && pos <= end <= data@.len(),
            Err(e) => parse_nodes(data@, pos as int, n as int) is None && e
                == ArchiveError::OutOfBounds,
        },
{
    let len = data.len();
    let mut nodes: Vec<PsgNode> = Vec::new();
    let mut p = pos;
    let mut k: u32 = 0;
    while k < n
        invariant
            len == data@.len(),
            k <= n,
            pos <= p <= len,
            parse_nodes(data@, p as int, n - k) matches Some((rest, end)) ==> parse_nodes(
                data@,
                pos as int,
                n as int,
            ) == Some((nodes@.map_values(|x: PsgNode| x@) + rest, end)),
            parse_nodes(data@, p as int, n - k) is None ==> parse_nodes(
                data@,
                pos as int,
                n as int,
            ) is None,
        decreases n - k,
    {
        if len - p < 16 {
            return Err(ArchiveError::OutOfBounds);
        }
        let ghost old_p = p as int;
        let ghost prev = nodes@;
        let skill_id = read_u32(data, p);
        let radius = read_u32(data, p + 4);
        let position = read_u32(data, p + 8);
        let cl = read_u32(data, p + 12);
        let (connections, p2) = match read_conns(data, p + 16, cl) {
            Ok(pair) => pair,
            Err(e) => {
                return Err(e);
            },
        };
        let node = PsgNode { skill_id, radius, position, connections };
        let ghost node_v = node@;
        nodes.push(node);
        p = p2;
        k = k + 1;
        proof {
            let pn = parse_nodes(data@, p as int, n - k);
            if pn is Some {
                let rest = pn.unwrap().0;
                assert(parse_nodes(data@, old_p, n - (k - 1)) == Some(
                    (seq![node_v] + rest, pn.unwrap().1),
                ));
                assert((prev.map_values(|x: PsgNode| x@) + (seq![node_v] + rest))
                    =~= (nodes@.map_values(|x: PsgNode| x@) + rest));
            }
        }
    }
    proof {
        assert(nodes@.map_values(|x: PsgNode| x@) + Seq::<PsgNodeV>::empty() =~= nodes@.map_values(
            |x: PsgNode| x@,
        ));
    }
    Ok((nodes, p))
}

/// Reads `n` group records at `pos`.
fn read_groups(data: &[u8], pos: usize, n: u32) -> (r: Result<
    (Vec<PsgGroup>, usize),
    ArchiveError,
>)
    requires
        pos <= data@.len(),
    ensures
        match r {
            Ok((groups, end)) => parse_groups(data@, pos as int, n as int) == Some(
                (groups@.map_values(|x: PsgGroup| x@), end as int),
            ) && pos <= end <= data@.len(),
            Err(e) => parse_groups(data@, pos as int, n as int) is None && e
                == ArchiveError::OutOfBounds,
        },
{
    let len = data.len();
    let mut groups: Vec<PsgGroup> = Vec::new();
    let mut p = pos;
    let mut k: u32 = 0;
    while k < n
        invariant
            len == data@.len(),
            k <= n,
            pos <= p <= len,
            parse_groups(data@, p as int, n - k) matches Some((rest, end)) ==> parse_groups(
                data@,
                pos as int,
                n as int,
            ) == Some((groups@.map_values(|x: PsgGroup| x@) + rest, end)),
            parse_groups(data@, p as int, n - k) is None ==> parse_groups(
                data@,
                pos as int,
                n as int,
            ) is None,
        decreases n - k,
    {
        if len - p < 21 {
            return Err(ArchiveError::OutOfBounds);
        }
        let ghost old_p = p as int;
        let ghost prev = groups@;
        let x = read_u32(data, p);
        let y = read_u32(data, p + 4);
        let nl = read_u32(data, p + 17);
        let (nodes, p2) = match read_nodes(data, p + 21, nl) {
            Ok(pair) => pair,
            Err(e) => {
                return Err(e);
            },
        };
        let group = PsgGroup { x, y, nodes };
        let ghost group_v = group@;
        groups.push(group);
        p = p2;
        k = k + 1;
        proof {
            let pg = parse_groups(data@, p as int, n - k);
            if pg is Some {
                let rest = pg.unwrap().0;
                assert(parse_groups(data@, old_p, n - (k - 1)) == Some(
                    (seq![group_v] + rest, pg.unwrap().1),
                ));
                assert((prev.map_values(|x0: PsgGroup| x0@) + (seq![group_v] + rest))
                    =~= (groups@.map_values(|x0: PsgGroup| x0@) + rest));
            }
        }
    }
    proof {
        assert(groups@.map_values(|x0: PsgGroup| x0@) + Seq::<PsgGroupV>::empty()
            =~= groups@.map_values(|x0: PsgGroup| x0@));
    }
    Ok((groups, p))
}

/// Parses a passive-skill-graph buffer. Fails with `OutOfBounds` exactly
/// when the buffer is truncated, and with `CorruptContainer` when the stored
/// root count exceeds 1000.
pub fn parse_psg(data: &[u8]) -> (r: Result<PsgFile, ArchiveError>)
    ensures
        match r {
            Ok(f) => {
                &&& data@.len() >= 17
                &&& le32_at(data@, 13) <= 1000
                &&& parse_psg_spec(data@) == Some(
                    (f.roots@, f.groups@.map_values(|x: PsgGroup| x@)),
                )
            },
            Err(ArchiveError::CorruptContainer) => data@.len() >= 17 && le32_at(data@, 13) > 1000,
            Err(ArchiveError::OutOfBounds) => data@.len() < 17 || (le32_at(data@, 13) <= 1000
                && parse_psg_spec(data@) is None),
            Err(_) => false,
        },
{
    let len = data.len();
    if len < 17 {
        return Err(ArchiveError::OutOfBounds);
    }
    let root_length = read_u32(data, 13);
    if root_length > 1000 {
        return Err(ArchiveError::CorruptContainer);
    }
    let (roots, p1) = match read_conns(data, 17, root_length) {
        Ok(pair) => pair,
        Err(e) => {
            return Err(e);
        },
    };
    if len - p1 < 4 {
        return Err(ArchiveError::OutOfBounds);
    }
    let group_length = read_u32(data, p1);
    let (groups, _) = match read_groups(data, p1 + 4, group_length) {
        Ok(pair) => pair,
        Err(e) => {
            return Err(e);
        },
    };
    Ok(PsgFile { roots, groups })
}

} // verus!
