//! Reader for the SteinLib `.stp` format.
//!
//! Sections: `SECTION Comment` (name, remarks), `SECTION Graph` (node and edge
//! counts, edges with costs) and `SECTION Terminals` (terminal count, terminals,
//! root). Lines are trimmed; empty lines and lines starting with `#` are
//! ignored; `END` and `EOF` close the current section. Unparsable numbers read
//! as 0, except that an unparsable terminal is skipped and an unparsable root
//! leaves no root.
use vstd::prelude::*;
use crate::graph::types::{Node, Edge, NodeType, NodeId, EdgeId, Cost, SteinerInstance};
use super::text::{
    trim, tokens, starts_with, lower, trim_quotes, parse_unsigned, trim_bounds, split_whitespace,
    starts_with_exec, bytes_eq, to_lower, trim_quotes_exec, parse_unsigned_exec, lemma_parse_unsigned_range,
};

verus! {

/// What the text `bytes` decodes to, invalid UTF-8 sequences replaced.
pub uninterp spec fn lossy_text(bytes: Seq<u8>) -> Seq<char>;

/// Text from bytes: `String::from_utf8_lossy`, made owned. The result is a
/// function of the bytes alone; it is named, not spelled out.
#[verifier::external_body]
fn text_of(bytes: &[u8]) -> (s: String)
    ensures
        s@ == lossy_text(bytes@),
{
    String::from_utf8_lossy(bytes).into_owned()
}

pub open spec fn kw(k: int) -> Seq<u8> {
    if k == 0 { seq![0x53u8, 0x45, 0x43, 0x54, 0x49, 0x4f, 0x4e] }  // SECTION
    else if k == 1 { seq![0x45u8, 0x4e, 0x44] }  // END
    else if k == 2 { seq![0x45u8, 0x4f, 0x46] }  // EOF
    else if k == 3 { seq![0x63u8, 0x6f, 0x6d, 0x6d, 0x65, 0x6e, 0x74] }  // comment
    else if k == 4 { seq![0x67u8, 0x72, 0x61, 0x70, 0x68] }  // graph
    else if k == 5 { seq![0x74u8, 0x65, 0x72, 0x6d, 0x69, 0x6e, 0x61, 0x6c, 0x73] }  // terminals
    else if k == 6 { seq![0x4eu8, 0x61, 0x6d, 0x65] }  // Name
    else if k == 7 { seq![0x43u8, 0x6f, 0x6d, 0x6d, 0x65, 0x6e, 0x74] }  // Comment
    else if k == 8 { seq![0x4eu8, 0x6f, 0x64, 0x65, 0x73] }  // Nodes
    else if k == 9 { seq![0x45u8, 0x64, 0x67, 0x65, 0x73] }  // Edges
    else if k == 10 { seq![0x41u8, 0x72, 0x63, 0x73] }  // Arcs
    else if k == 11 { seq![0x45u8] }  // E
    else if k == 12 { seq![0x41u8] }  // A
    else if k == 13 { seq![0x54u8, 0x65, 0x72, 0x6d, 0x69, 0x6e, 0x61, 0x6c, 0x73] }  // Terminals
    else if k == 14 { seq![0x54u8] }  // T
    else if k == 15 { seq![0x52u8, 0x6f, 0x6f, 0x74] }  // Root
    else { seq![0x52u8, 0x6f, 0x6f, 0x74, 0x50] }  // RootP
}

fn keyword(k: usize) -> (r: Vec<u8>)
    ensures
        r@ == kw(k as int),
{
    let r: Vec<u8> = if k == 0 { vec![0x53u8, 0x45, 0x43, 0x54, 0x49, 0x4f, 0x4e] }
    else if k == 1 { vec![0x45u8, 0x4e, 0x44] }
    else if k == 2 { vec![0x45u8, 0x4f, 0x46] }
    else if k == 3 { vec![0x63u8, 0x6f, 0x6d, 0x6d, 0x65, 0x6e, 0x74] }
    else if k == 4 { vec![0x67u8, 0x72, 0x61, 0x70, 0x68] }
    else if k == 5 { vec![0x74u8, 0x65, 0x72, 0x6d, 0x69, 0x6e, 0x61, 0x6c, 0x73] }
    else if k == 6 { vec![0x4eu8, 0x61, 0x6d, 0x65] }
    else if k == 7 { vec![0x43u8, 0x6f, 0x6d, 0x6d, 0x65, 0x6e, 0x74] }
    else if k == 8 { vec![0x4eu8, 0x6f, 0x64, 0x65, 0x73] }
    else if k == 9 { vec![0x45u8, 0x64, 0x67, 0x65, 0x73] }
    else if k == 10 { vec![0x41u8, 0x72, 0x63, 0x73] }
    else if k == 11 { vec![0x45u8] }
    else if k == 12 { vec![0x41u8] }
    else if k == 13 { vec![0x54u8, 0x65, 0x72, 0x6d, 0x69, 0x6e, 0x61, 0x6c, 0x73] }
    else if k == 14 { vec![0x54u8] }
    else if k == 15 { vec![0x52u8, 0x6f, 0x6f, 0x74] }
    else { vec![0x52u8, 0x6f, 0x6f, 0x74, 0x50] };
    proof {
        assert(r@ =~= kw(k as int));
    }
    r
}

/// The reader's state after some lines, in mathematical terms.
pub struct ReadState {
    pub section: Seq<u8>,
    pub name: Option<Seq<u8>>,
    pub comment: Option<Seq<u8>>,
    pub num_nodes: u32,
    pub num_edges: u32,
    pub num_terminals: u32,
    pub edges: Seq<Edge>,
    pub terminals: Seq<u32>,
    pub root: Option<u32>,
}

pub open spec fn initial_state() -> ReadState {
    ReadState {
        section: Seq::empty(),
        name: None,
        comment: None,
        num_nodes: 0,
        num_edges: 0,
        num_terminals: 0,
        edges: Seq::empty(),
        terminals: Seq::empty(),
        root: None,
    }
}

/// A `u32` read from a token, or 0.
pub open spec fn u32_or_zero(tok: Seq<u8>) -> u32 {
    match parse_unsigned(tok, u32::MAX as int) {
        Some(v) => v as u32,
        None => 0,
    }
}

pub open spec fn u32_opt(tok: Seq<u8>) -> Option<u32> {
    match parse_unsigned(tok, u32::MAX as int) {
        Some(v) => Some(v as u32),
        None => None,
    }
}

/// A `Name` or `Comment` line of the comment section (`l` trimmed).
pub open spec fn comment_step(st: ReadState, l: Seq<u8>) -> ReadState {
    let a = if starts_with(l, kw(6)) {
        ReadState { name: Some(trim_quotes(trim(l.subrange(4, l.len() as int)))), ..st }
    } else {
        st
    };
    if starts_with(l, kw(7)) {
        ReadState { comment: Some(trim_quotes(trim(l.subrange(7, l.len() as int)))), ..a }
    } else {
        a
    }
}

/// A line of the graph section (`l` trimmed).
pub open spec fn graph_step(st: ReadState, l: Seq<u8>) -> ReadState {
    let t = tokens(l);
    if t.len() < 2 {
        st
    } else if t[0] == kw(8) {
        ReadState { num_nodes: u32_or_zero(t[1]), ..st }
    } else if t[0] == kw(9) || t[0] == kw(10) {
        ReadState { num_edges: u32_or_zero(t[1]), ..st }
    } else if (t[0] == kw(11) || t[0] == kw(12)) && t.len() >= 4 {
        let cost = match parse_unsigned(t[3], u64::MAX as int) {
            Some(v) => v as u64,
            None => 0u64,
        };
        ReadState {
            edges: st.edges.push(Edge { id: st.edges.len() as u32, src: u32_or_zero(t[1]), dst: u32_or_zero(t[2]), cost }),
            ..st
        }
    } else {
        st
    }
}

/// A line of the terminals section (`l` trimmed).
pub open spec fn terminals_step(st: ReadState, l: Seq<u8>) -> ReadState {
    let t = tokens(l);
    if t.len() < 2 {
        st
    } else if t[0] == kw(13) {
        ReadState { num_terminals: u32_or_zero(t[1]), ..st }
    } else if t[0] == kw(14) {
        match u32_opt(t[1]) {
            Some(v) => ReadState { terminals: st.terminals.push(v), ..st },
            None => st,
        }
    } else if t[0] == kw(15) || t[0] == kw(16) {
        ReadState { root: u32_opt(t[1]), ..st }
    } else {
        st
    }
}

/// One line of the file.
pub open spec fn step(st: ReadState, line: Seq<u8>) -> ReadState {
    let l = trim(line);
    if l.len() == 0 || l[0] == 0x23 {
        st
    } else if starts_with(l, kw(0)) {
        let t = tokens(l);
        ReadState { section: if t.len() > 1 { lower(t[1]) } else { Seq::empty() }, ..st }
    } else if l == kw(1) || l == kw(2) {
        ReadState { section: Seq::empty(), ..st }
    } else if st.section == kw(3) {
        comment_step(st, l)
    } else if st.section == kw(4) {
        graph_step(st, l)
    } else if st.section == kw(5) {
        terminals_step(st, l)
    } else {
        st
    }
}

/// The state after reading `lines` in order.
pub open spec fn read_lines(lines: Seq<Seq<u8>>) -> ReadState
    decreases lines.len(),
{
    if lines.len() == 0 {
        initial_state()
    } else {
        step(read_lines(lines.drop_last()), lines.last())
    }
}

/// The lines of `t[i..]` split at line feeds, `cur` the partial line.
pub open spec fn lines_acc(t: Seq<u8>, i: int, cur: Seq<u8>, acc: Seq<Seq<u8>>) -> Seq<Seq<u8>>
    decreases t.len() - i,
{
    if i >= t.len() || i < 0 {
        acc.push(cur)
    } else if t[i] == 0x0a {
        lines_acc(t, i + 1, Seq::empty(), acc.push(cur))
    } else {
        lines_acc(t, i + 1, cur.push(t[i]), acc)
    }
}

pub open spec fn split_lines(t: Seq<u8>) -> Seq<Seq<u8>> {
    lines_acc(t, 0, Seq::empty(), Seq::empty())
}

/// The vertices the reader creates when the file names no node explicitly:
/// `1..=num_nodes`, terminals marked.
pub open spec fn implied_nodes(num_nodes: u32, terminals: Seq<u32>) -> Seq<Node> {
    Seq::new(
        num_nodes as nat,
        |i: int| Node {
            id: (i + 1) as u32,
            node_type: if terminals.contains((i + 1) as u32) { NodeType::Terminal } else { NodeType::Steiner },
            weight: 0,
        },
    )
}

/// `inst` is what the reader builds from the state `st`.
pub open spec fn instance_of(inst: &SteinerInstance, st: ReadState) -> bool {
    &&& inst.name@ == (match st.name { Some(b) => lossy_text(b), None => Seq::<char>::empty() })
    &&& inst.comment@ == (match st.comment { Some(b) => lossy_text(b), None => Seq::<char>::empty() })
    &&& inst.num_nodes == st.num_nodes
    &&& inst.num_edges == st.num_edges
    &&& inst.num_terminals == st.num_terminals
    &&& inst.edges@ == st.edges
    &&& inst.terminals@ == st.terminals
    &&& inst.root == st.root
    &&& inst.nodes@ == implied_nodes(st.num_nodes, st.terminals)
}

/// The reader's working state.
struct ParseState {
    section: Vec<u8>,
    name: Option<Vec<u8>>,
    comment: Option<Vec<u8>>,
    num_nodes: u32,
    num_edges: u32,
    num_terminals: u32,
    edges: Vec<Edge>,
    terminals: Vec<u32>,
    root: Option<u32>,
}

impl ParseState {
    spec fn view(&self) -> ReadState {
        ReadState {
            section: self.section@,
            name: match self.name { Some(b) => Some(b@), None => None },
            comment: match self.comment { Some(b) => Some(b@), None => None },
            num_nodes: self.num_nodes,
            num_edges: self.num_edges,
            num_terminals: self.num_terminals,
            edges: self.edges@,
            terminals: self.terminals@,
            root: self.root,
        }
    }
}

fn u32_or_zero_exec(tok: &[u8]) -> (r: u32)
    ensures
        r == u32_or_zero(tok@),
{
    proof {
        lemma_parse_unsigned_range(tok@, u32::MAX as int);
    }
    match parse_unsigned_exec(tok, 0xffff_ffff) {
        Some(v) => v as u32,
        None => 0,
    }
}

fn u32_opt_exec(tok: &[u8]) -> (r: Option<u32>)
    ensures
        r == u32_opt(tok@),
{
    proof {
        lemma_parse_unsigned_range(tok@, u32::MAX as int);
    }
    match parse_unsigned_exec(tok, 0xffff_ffff) {
        Some(v) => Some(v as u32),
        None => None,
    }
}

/// Bytes `s[a..]`.
fn tail_of(s: &[u8], a: usize) -> (r: Vec<u8>)
    requires
        a <= s@.len(),
    ensures
        r@ == s@.subrange(a as int, s@.len() as int),
{
    let mut r: Vec<u8> = Vec::new();
    let mut i = a;
    while i < s.len()
        invariant
            a <= i <= s@.len(),
            r@ == s@.subrange(a as int, i as int),
        decreases s@.len() - i,
    {
        r.push(s[i]);
        proof {
            assert(s@.subrange(a as int, i + 1) == s@.subrange(a as int, i as int).push(s@[i as int]));
        }
        i += 1;
    }
    r
}

/// `trim_quotes(trim(s[a..]))`.
fn field_value(s: &[u8], a: usize) -> (r: Vec<u8>)
    requires
        a <= s@.len(),
    ensures
        r@ == trim_quotes(trim(s@.subrange(a as int, s@.len() as int))),
{
    let rest = tail_of(s, a);
    let (x, y) = trim_bounds(rest.as_slice());
    trim_quotes_exec(&rest.as_slice()[x..y])
}

/// Reader for the SteinLib `.stp` format.
pub struct StpReader;

impl StpReader {
    pub fn new() -> (r: Self) {
        StpReader
    }

    /// Build the instance that the text of an `.stp` file describes.
    pub fn parse(&self, text: &[u8]) -> (inst: SteinerInstance)
        ensures
            instance_of(&inst, read_lines(split_lines(text@))),
    {
        let mut st = ParseState {
            section: Vec::new(),
            name: None,
            comment: None,
            num_nodes: 0,
            num_edges: 0,
            num_terminals: 0,
            edges: Vec::new(),
            terminals: Vec::new(),
            root: None,
        };
        let ghost mut done: Seq<Seq<u8>> = Seq::empty();
        proof {
            assert(st.view() =~= initial_state());
            assert(read_lines(done) == initial_state());
            assert(text@.subrange(0, 0) =~= Seq::<u8>::empty());
        }
        let mut start: usize = 0;
        let mut i: usize = 0;
        while i < text.len()
            invariant
                start <= i <= text@.len(),
                lines_acc(text@, i as int, text@.subrange(start as int, i as int), done) == split_lines(text@),
                st.view() == read_lines(done),
            decreases text@.len() - i,
        {
            if text[i] == 0x0a {
                let line = &text[start..i];
                proof {
                    assert(line@ == text@.subrange(start as int, i as int));
                    assert(text@.subrange((i + 1) as int, (i + 1) as int) =~= Seq::<u8>::empty());
                }
                self.line(&mut st, line);
                proof {
                    let d2 = done.push(line@);
                    assert(d2.drop_last() == done);
                    done = d2;
                }
                start = i + 1;
            } else {
                proof {
                    assert(text@.subrange(start as int, i + 1) == text@.subrange(start as int, i as int).push(text@[i as int]));
                }
            }
            i += 1;
        }
        let line = &text[start..i];
        self.line(&mut st, line);
        proof {
            let d2 = done.push(line@);
            assert(d2.drop_last() == done);
            assert(split_lines(text@) == d2);
        }
        let mut nodes: Vec<Node> = Vec::new();
        let mut k: u64 = 1;
        let ghost tset = st.terminals@;
        while k <= st.num_nodes as u64
            invariant
                1 <= k <= st.num_nodes as u64 + 1,
                st.terminals@ == tset,
                nodes@ == implied_nodes((k - 1) as u32, tset),
            decreases st.num_nodes as u64 + 1 - k,
        {
            let id = k as u32;
            let node_type = if super::super::graph::algorithms::vertex_sets::list_contains(&st.terminals, id) {
                NodeType::Terminal
            } else {
                NodeType::Steiner
            };
            nodes.push(Node { id, node_type, weight: 0 });
            proof {
                assert(nodes@ =~= implied_nodes(id, tset));
            }
            k += 1;
        }
        proof {
            assert(nodes@ =~= implied_nodes(st.num_nodes, tset));
        }
        let name = match &st.name {
            Some(b) => text_of(b.as_slice()),
            None => String::new(),
        };
        let comment = match &st.comment {
            Some(b) => text_of(b.as_slice()),
            None => String::new(),
        };
        SteinerInstance {
            name,
            comment,
            num_nodes: st.num_nodes,
            num_edges: st.num_edges,
            num_terminals: st.num_terminals,
            nodes,
            edges: st.edges,
            terminals: st.terminals,
            root: st.root,
        }
    }

    fn comment_line(&self, st: &mut ParseState, l: &[u8])
        ensures
            final(st).view() == comment_step(old(st).view(), l@),
    {
        let name_kw = keyword(6);
        if starts_with_exec(l, name_kw.as_slice()) {
            st.name = Some(field_value(l, 4));
        }
        let comment_kw = keyword(7);
        if starts_with_exec(l, comment_kw.as_slice()) {
            st.comment = Some(field_value(l, 7));
        }
    }

    fn graph_line(&self, st: &mut ParseState, l: &[u8])
        ensures
            final(st).view() == graph_step(old(st).view(), l@),
    {
        let t = split_whitespace(l);
        if t.len() < 2 {
            return;
        }
        let first = t[0].as_slice();
        if bytes_eq(first, keyword(8).as_slice()) {
            st.num_nodes = u32_or_zero_exec(t[1].as_slice());
        } else if bytes_eq(first, keyword(9).as_slice()) || bytes_eq(first, keyword(10).as_slice()) {
            st.num_edges = u32_or_zero_exec(t[1].as_slice());
        } else if (bytes_eq(first, keyword(11).as_slice()) || bytes_eq(first, keyword(12).as_slice())) && t.len() >= 4 {
            let src = u32_or_zero_exec(t[1].as_slice());
            let dst = u32_or_zero_exec(t[2].as_slice());
            let cost: Cost = match parse_unsigned_exec(t[3].as_slice(), 0xffff_ffff_ffff_ffff) {
                Some(v) => v,
                None => 0,
            };
            let id = st.edges.len() as EdgeId;
            st.edges.push(Edge { id, src, dst, cost });
        }
    }

    fn terminals_line(&self, st: &mut ParseState, l: &[u8])
        ensures
            final(st).view() == terminals_step(old(st).view(), l@),
    {
        let t = split_whitespace(l);
        if t.len() < 2 {
            return;
        }
        let first = t[0].as_slice();
        if bytes_eq(first, keyword(13).as_slice()) {
            st.num_terminals = u32_or_zero_exec(t[1].as_slice());
        } else if bytes_eq(first, keyword(14).as_slice()) {
            match u32_opt_exec(t[1].as_slice()) {
                Some(v) => st.terminals.push(v),
                None => {},
            }
        } else if bytes_eq(first, keyword(15).as_slice()) || bytes_eq(first, keyword(16).as_slice()) {
            st.root = u32_opt_exec(t[1].as_slice());
        }
    }

    fn line(&self, st: &mut ParseState, line: &[u8])
        ensures
            final(st).view() == step(old(st).view(), line@),
    {
        let (a, b) = trim_bounds(line);
        let l = &line[a..b];
        assert(l@ == trim(line@));
        if l.len() == 0 || l[0] == 0x23 {
            return;
        }
        if starts_with_exec(l, keyword(0).as_slice()) {
            let t = split_whitespace(l);
            if t.len() > 1 {
                st.section = to_lower(t[1].as_slice());
            } else {
                st.section = Vec::new();
                proof {
                    assert(st.section@ =~= Seq::<u8>::empty());
                }
            }
            return;
        }
        if bytes_eq(l, keyword(1).as_slice()) || bytes_eq(l, keyword(2).as_slice()) {
            st.section = Vec::new();
            proof {
                assert(st.section@ =~= Seq::<u8>::empty());
            }
            return;
        }
        if bytes_eq(st.section.as_slice(), keyword(3).as_slice()) {
            self.comment_line(st, l);
        } else if bytes_eq(st.section.as_slice(), keyword(4).as_slice()) {
            self.graph_line(st, l);
        } else if bytes_eq(st.section.as_slice(), keyword(5).as_slice()) {
            self.terminals_line(st, l);
        }
    }
}

} // verus!
