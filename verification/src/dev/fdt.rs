//! A device tree walked node by node.
//!
//! Nodes come out in the order of the structure block, children right after their
//! parent's properties.  A node's name is the whole words that hold it, its zero and
//! padding included; its properties are the run of `Prop` tokens after it, up to the
//! last one whose name is zero-terminated in the strings block.  A property's data is
//! padded to whole words.
use vstd::prelude::*;
use crate::fdt::{
    align4, cstr_len, cstr_length, reg_name, lemma_name_end, name_end, scan_name, token_at, token_of, FdtError, Token, HEADER_SIZE,
    MAGIC,
};
use crate::util::bits::{
    be32_at, be64_at, lemma_swap_le32, lemma_swap_le64, le32_at, read_le32, read_le64, u32_from_bytes, Be, BeRep,
};
use vstd::string::StringSliceAdditionalSpecFns;

verus! {

pub const TOKEN_SIZE: usize = 4;

/// Size of a property's head: the length of its data and the offset of its name.
pub const PROP_SIZE: usize = 8;

/// The token that the first four bytes encode; `None` when there are fewer, or for a
/// value of no known kind.
pub fn read_token(bytes: &[u8]) -> (r: Option<Token>)
    ensures
        bytes@.len() < TOKEN_SIZE ==> r is None,
        bytes@.len() >= TOKEN_SIZE ==> r == token_of(be32_at(bytes@, 0)),
{
    match u32_from_bytes(bytes) {
        None => None,
        Some(raw) => {
            proof {
                lemma_swap_le32(bytes@, 0);
            }
            Token::from_value(Be(raw).get())
        },
    }
}

/// The device tree header, its words as they lie in memory.
#[derive(Clone, Copy)]
pub struct Header {
    pub magic: Be<u32>,
    pub totalsize: Be<u32>,
    pub off_dt_struct: Be<u32>,
    pub off_dt_strings: Be<u32>,
    pub off_mem_rsvmap: Be<u32>,
    pub version: Be<u32>,
    pub last_comp_version: Be<u32>,
    pub boot_cpuid_phys: Be<u32>,
    pub size_dt_strings: Be<u32>,
    pub size_dt_struct: Be<u32>,
}

/// The header that the first forty bytes of `s` hold.
pub open spec fn header_at(s: Seq<u8>) -> Header {
    Header {
        magic: Be(le32_at(s, 0) as u32),
        totalsize: Be(le32_at(s, 4) as u32),
        off_dt_struct: Be(le32_at(s, 8) as u32),
        off_dt_strings: Be(le32_at(s, 12) as u32),
        off_mem_rsvmap: Be(le32_at(s, 16) as u32),
        version: Be(le32_at(s, 20) as u32),
        last_comp_version: Be(le32_at(s, 24) as u32),
        boot_cpuid_phys: Be(le32_at(s, 28) as u32),
        size_dt_strings: Be(le32_at(s, 32) as u32),
        size_dt_struct: Be(le32_at(s, 36) as u32),
    }
}

impl Header {
    pub fn from_bytes(data: &[u8]) -> (r: Header)
        requires
            data@.len() >= HEADER_SIZE,
        ensures
            r == header_at(data@),
    {
        Header {
            magic: Be(read_le32(data, 0)),
            totalsize: Be(read_le32(data, 4)),
            off_dt_struct: Be(read_le32(data, 8)),
            off_dt_strings: Be(read_le32(data, 12)),
            off_mem_rsvmap: Be(read_le32(data, 16)),
            version: Be(read_le32(data, 20)),
            last_comp_version: Be(read_le32(data, 24)),
            boot_cpuid_phys: Be(read_le32(data, 28)),
            size_dt_strings: Be(read_le32(data, 32)),
            size_dt_struct: Be(read_le32(data, 36)),
        }
    }
}

/// A property's head as it lies in memory.
#[derive(Clone, Copy)]
pub struct RawProp {
    len: Be<u32>,
    nameoff: Be<u32>,
}

/// A property: its name (without the zero) and its data, padded to whole words.
pub struct Prop<'a> {
    pub name: &'a [u8],
    pub data: &'a [u8],
}

impl<'a> Prop<'a> {
    /// The property's size in the structure block after its token.
    pub fn full_len(&self) -> (r: usize)
        requires
            self.data@.len() + PROP_SIZE <= usize::MAX,
        ensures
            r == PROP_SIZE + self.data@.len(),
    {
        PROP_SIZE + self.data.len()
    }
}

/// A device tree: its header, its structure block and its strings block.
pub struct FDT<'a> {
    pub header: Header,
    pub nodes: &'a [u8],
    pub strings: &'a [u8],
}

/// Walks the nodes from `pos` on.
pub struct NodeIter<'a> {
    pub pos: &'a [u8],
    pub strings: &'a [u8],
}

/// Walks the properties from `pos` on.
pub struct PropIter<'a> {
    pub strings: &'a [u8],
    pub pos: &'a [u8],
}

/// A node: its name, and its properties in the strings block's terms.
pub struct Node<'a> {
    pub name: &'a [u8],
    pub strings: &'a [u8],
    pub props: &'a [u8],
}

/// The memory range of a `reg` property, its words as they lie in memory.
#[derive(Clone, Copy)]
pub struct FDTMemRange {
    pub start: Be<u64>,
    pub len: Be<u64>,
}

/// `p` starts with a `Prop` token.
pub open spec fn is_prop(p: Seq<u8>) -> bool {
    p.len() >= 4 && token_of(be32_at(p, 0)) == Some(Token::Prop)
}

/// The padded length of the data of the property at the head of `p`.
pub open spec fn prop_padded_len(p: Seq<u8>) -> int {
    align4(be32_at(p, 4))
}

/// The offset, in the strings block, of the name of the property at the head of `p`.
pub open spec fn prop_nameoff(p: Seq<u8>) -> int {
    be32_at(p, 8)
}

/// The property at the head of `p` lies within the data, and its name's offset within
/// the strings block.
pub open spec fn prop_fits(p: Seq<u8>, st: Seq<u8>) -> bool {
    &&& p.len() >= 12
    &&& 12 + prop_padded_len(p) <= p.len()
    &&& prop_nameoff(p) <= st.len()
}

/// A zero ends the text at `o` before the end of `st`.
pub open spec fn name_terminated(st: Seq<u8>, o: int) -> bool {
    o + cstr_len(st, o) < st.len()
}

pub open spec fn prop_name(p: Seq<u8>, st: Seq<u8>) -> Seq<u8> {
    st.subrange(prop_nameoff(p), prop_nameoff(p) + cstr_len(st, prop_nameoff(p)))
}

pub open spec fn prop_data(p: Seq<u8>) -> Seq<u8> {
    p.subrange(12, 12 + prop_padded_len(p))
}

/// What follows the property at the head of `p`.
pub open spec fn prop_rest(p: Seq<u8>) -> Seq<u8> {
    p.subrange(12 + prop_padded_len(p), p.len() as int)
}

pub proof fn lemma_prop_rest(p: Seq<u8>, st: Seq<u8>)
    requires
        prop_fits(p, st),
    ensures
        prop_padded_len(p) >= 0,
        prop_rest(p).len() < p.len(),
{
}

/// The first property, walking from the head of `p`, named `check`, as its name and
/// data; `Some(None)` when the walk ends first (at a token that is no property, or at a
/// name with no zero); `None` when a property runs past the data or its name's offset
/// past the strings.
pub open spec fn find_prop_spec(p: Seq<u8>, st: Seq<u8>, check: Seq<u8>) -> Option<Option<(Seq<u8>, Seq<u8>)>>
    decreases p.len(),
{
    if !is_prop(p) {
        Some(None)
    } else if !prop_fits(p, st) {
        None
    } else if !name_terminated(st, prop_nameoff(p)) {
        Some(None)
    } else if prop_name(p, st) == check {
        Some(Some((prop_name(p, st), prop_data(p))))
    } else {
        proof {
            lemma_prop_rest(p, st);
        }
        find_prop_spec(prop_rest(p), st, check)
    }
}

/// How many bytes at the head of `p` the properties take, up to the end of the last one
/// that the walk yields; `None` when one runs past the data.
pub open spec fn props_run(p: Seq<u8>, st: Seq<u8>) -> Option<int>
    decreases p.len(),
{
    if !is_prop(p) {
        Some(0)
    } else if !prop_fits(p, st) {
        None
    } else if !name_terminated(st, prop_nameoff(p)) {
        Some(0)
    } else {
        proof {
            lemma_prop_rest(p, st);
        }
        match props_run(prop_rest(p), st) {
            None => None,
            Some(k) => Some(12 + prop_padded_len(p) + k),
        }
    }
}

pub proof fn lemma_props_run(p: Seq<u8>, st: Seq<u8>)
    ensures
        props_run(p, st) matches Some(k) ==> 0 <= k <= p.len(),
    decreases p.len(),
{
    if is_prop(p) && prop_fits(p, st) && name_terminated(st, prop_nameoff(p)) {
        lemma_prop_rest(p, st);
        lemma_props_run(prop_rest(p), st);
    }
}

/// The offset of the first token at or after `off` that is no `EndNode`.
pub open spec fn skip_end_nodes(p: Seq<u8>, off: int) -> int
    decreases p.len() - off,
{
    if 0 <= off && off + 4 <= p.len() && token_of(be32_at(p, off)) == Some(Token::EndNode) {
        skip_end_nodes(p, off + 4)
    } else {
        off
    }
}

pub proof fn lemma_skip_end_nodes(p: Seq<u8>, off: int)
    requires
        0 <= off <= p.len(),
    ensures
        off <= skip_end_nodes(p, off) <= p.len(),
    decreases p.len() - off,
{
    if off + 4 <= p.len() && token_of(be32_at(p, off)) == Some(Token::EndNode) {
        lemma_skip_end_nodes(p, off + 4);
    }
}

/// One step of the node walk over `p`: the node it yields, as its name and its
/// properties, and how many bytes the walk passes; `None` when a name or a property
/// runs past the data.  At fewer than four bytes or a token of no known kind the walk
/// yields nothing and stays; at `End` it yields nothing and passes the token.
pub open spec fn node_next(p: Seq<u8>, st: Seq<u8>) -> Option<(Option<(Seq<u8>, Seq<u8>)>, int)> {
    if p.len() < 4 {
        Some((None, 0))
    } else {
        match token_of(be32_at(p, 0)) {
            None => Some((None, 0)),
            Some(Token::End) => Some((None, 4)),
            Some(_) => match name_end(p, 4) {
                None => None,
                Some(ne) => match props_run(p.subrange(ne, p.len() as int), st) {
                    None => None,
                    Some(k) => Some(
                        (Some((p.subrange(4, ne), p.subrange(ne, ne + k))), skip_end_nodes(p, ne + k)),
                    ),
                },
            },
        }
    }
}

pub proof fn lemma_node_next(p: Seq<u8>, st: Seq<u8>)
    ensures
        node_next(p, st) matches Some((_, q)) ==> 0 <= q <= p.len(),
        node_next(p, st) matches Some((Some(_), q)) ==> 0 < q,
{
    if p.len() >= 4 {
        lemma_name_end(p, 4);
        if let Some(ne) = name_end(p, 4) {
            lemma_props_run(p.subrange(ne, p.len() as int), st);
            if let Some(k) = props_run(p.subrange(ne, p.len() as int), st) {
                lemma_skip_end_nodes(p, ne + k);
            }
        }
    }
}

/// `name` starts with `prefix`.
pub open spec fn has_prefix(name: Seq<u8>, prefix: Seq<u8>) -> bool {
    name.len() >= prefix.len() && name.subrange(0, prefix.len() as int) == prefix
}

/// The first node, walking over `p`, whose name starts with `prefix`, as its name and
/// properties; `Some(None)` when the walk ends first; `None` when it runs past the data.
pub open spec fn find_node_spec(p: Seq<u8>, st: Seq<u8>, prefix: Seq<u8>) -> Option<Option<(Seq<u8>, Seq<u8>)>>
    decreases p.len(),
{
    match node_next(p, st) {
        None => None,
        Some((None, _)) => Some(None),
        Some((Some((name, props)), q)) => if has_prefix(name, prefix) {
            Some(Some((name, props)))
        } else {
            proof {
                lemma_node_next(p, st);
            }
            find_node_spec(p.subrange(q, p.len() as int), st, prefix)
        },
    }
}


/// `o` shifted by `d`.
pub open spec fn shift(o: Option<int>, d: int) -> Option<int> {
    match o {
        None => None,
        Some(k) => Some(k + d),
    }
}

/// Whether two byte strings are equal.
fn bytes_eq(a: &[u8], b: &[u8]) -> (r: bool)
    ensures
        r == (a@ == b@),
{
    if a.len() != b.len() {
        return false;
    }
    let mut i: usize = 0;
    while i < a.len()
        invariant
            a@.len() == b@.len(),
            i <= a@.len(),
            forall|j: int| 0 <= j < i ==> a@[j] == b@[j],
        decreases a@.len() - i,
    {
        if a[i] != b[i] {
            return false;
        }
        i = i + 1;
    }
    assert(a@ =~= b@);
    true
}

impl<'a> PropIter<'a> {
    /// The next property; `Ok(None)` at a token that is no property, or when the
    /// property's name has no zero before the end of the strings (it is passed then).
    pub fn next(&mut self) -> (r: Result<Option<Prop<'a>>, FdtError>)
        ensures
            !is_prop(old(self).pos@) ==> (r matches Ok(None) && *final(self) == *old(self)),
            is_prop(old(self).pos@) && !prop_fits(old(self).pos@, old(self).strings@) ==> r == Err::<
                Option<Prop<'a>>,
                FdtError,
            >(FdtError::Malformed) && *final(self) == *old(self),
            is_prop(old(self).pos@) && prop_fits(old(self).pos@, old(self).strings@) ==> {
                let p = old(self).pos@;
                let st = old(self).strings@;
                &&& final(self).strings == old(self).strings
                &&& final(self).pos@ == prop_rest(p)
                &&& name_terminated(st, prop_nameoff(p)) ==> (r matches Ok(Some(pr)) && pr.name@ == prop_name(p, st)
                    && pr.data@ == prop_data(p))
                &&& !name_terminated(st, prop_nameoff(p)) ==> r matches Ok(None)
            },
    {
        let p = self.pos;
        let st = self.strings;
        match read_token(p) {
            Some(Token::Prop) => {},
            _ => {
                return Ok(None);
            },
        }
        if p.len() < 12 {
            return Err(FdtError::Malformed);
        }
        let raw = RawProp { len: Be(read_le32(p, 4)), nameoff: Be(read_le32(p, 8)) };
        proof {
            lemma_swap_le32(p@, 4);
            lemma_swap_le32(p@, 8);
        }
        let plen = raw.len.get() as u64;
        let padded = (plen + 3) / 4 * 4;
        let nameoff = raw.nameoff.get() as usize;
        if ((p.len() - 12) as u64) < padded || nameoff > st.len() {
            return Err(FdtError::Malformed);
        }
        let end = 12 + padded as usize;
        let data = vstd::slice::slice_subrange(p, 12, end);
        self.pos = vstd::slice::slice_subrange(p, end, p.len());
        let n = cstr_length(st, nameoff);
        if n < st.len() - nameoff {
            Ok(Some(Prop { name: vstd::slice::slice_subrange(st, nameoff, nameoff + n), data }))
        } else {
            Ok(None)
        }
    }
}

impl<'a> Node<'a> {
    /// A walk over the node's properties.
    pub fn iter(&self) -> (r: PropIter<'a>)
        ensures
            r.pos == self.props,
            r.strings == self.strings,
    {
        PropIter { strings: self.strings, pos: self.props }
    }

    /// The first property named `name`; `Ok(None)` when the walk over the properties
    /// ends first.
    pub fn find_prop(&self, name: &str) -> (r: Result<Option<Prop<'a>>, FdtError>)
        ensures
            match find_prop_spec(self.props@, self.strings@, name.spec_bytes()) {
                None => r == Err::<Option<Prop<'a>>, FdtError>(FdtError::Malformed),
                Some(None) => r matches Ok(None),
                Some(Some((n, d))) => r matches Ok(Some(p)) && p.name@ == n && p.data@ == d,
            },
    {
        let check = name.as_bytes();
        let mut it = self.iter();
        loop
            invariant
                it.strings == self.strings,
                check@ == name.spec_bytes(),
                find_prop_spec(it.pos@, self.strings@, check@) == find_prop_spec(self.props@, self.strings@, check@),
            decreases it.pos@.len(),
        {
            match it.next() {
                Err(e) => {
                    return Err(e);
                },
                Ok(None) => {
                    return Ok(None);
                },
                Ok(Some(p)) => {
                    if bytes_eq(p.name, check) {
                        return Ok(Some(p));
                    }
                },
            }
        }
    }
}

impl<'a> NodeIter<'a> {
    /// The next node; `Ok(None)` at the end of the tree, at fewer than four bytes or at
    /// a token of no known kind.  The walk then passes the `EndNode` tokens that follow
    /// the node's properties.
    pub fn next(&mut self) -> (r: Result<Option<Node<'a>>, FdtError>)
        ensures
            match node_next(old(self).pos@, old(self).strings@) {
                None => r == Err::<Option<Node<'a>>, FdtError>(FdtError::Malformed) && *final(self) == *old(self),
                Some((None, q)) => r matches Ok(None) && final(self).strings == old(self).strings && final(self).pos@
                    == old(self).pos@.subrange(q, old(self).pos@.len() as int),
                Some((Some((name, props)), q)) => r matches Ok(Some(n)) && n.name@ == name && n.props@ == props
                    && n.strings == old(self).strings && final(self).strings == old(self).strings && final(self).pos@
                    == old(self).pos@.subrange(q, old(self).pos@.len() as int),
            },
    {
        let p = self.pos;
        let st = self.strings;
        let token = match read_token(p) {
            None => {
                return Ok(None);
            },
            Some(t) => t,
        };
        if let Token::End = token {
            self.pos = vstd::slice::slice_subrange(p, 4, p.len());
            return Ok(None);
        }
        let ne = match scan_name(p, 4) {
            None => {
                return Err(FdtError::Malformed);
            },
            Some(e) => e,
        };
        proof {
            lemma_name_end(p@, 4);
        }
        let ghost pne = p@.subrange(ne as int, p@.len() as int);
        let mut props = PropIter { strings: st, pos: vstd::slice::slice_subrange(p, ne, p.len()) };
        let mut pe = ne;
        loop
            invariant_except_break
                props.pos@ == p@.subrange(pe as int, p@.len() as int),
                props_run(pne, st@) == shift(props_run(props.pos@, st@), pe - ne),
            invariant
                *self == *old(self),
                p == old(self).pos,
                st == old(self).strings,
                props.strings == st,
                4 < ne <= pe <= p@.len(),
                token_of(be32_at(p@, 0)) is Some,
                token_of(be32_at(p@, 0)) != Some(Token::End),
                name_end(p@, 4) == Some(ne as int),
                pne == p@.subrange(ne as int, p@.len() as int),
            ensures
                props_run(pne, st@) == Some(pe - ne),
            decreases props.pos@.len(),
        {
            let ghost cur = props.pos@;
            match props.next() {
                Err(e) => {
                    return Err(e);
                },
                Ok(None) => {
                    break;
                },
                Ok(Some(_)) => {
                    proof {
                        lemma_prop_rest(cur, st@);
                        assert(props.pos@ =~= p@.subrange(pe + 12 + prop_padded_len(cur), p@.len() as int));
                    }
                    pe = p.len() - props.pos.len();
                },
            }
        }
        let mut q = pe;
        loop
            invariant
                pe <= q <= p@.len(),
                skip_end_nodes(p@, q as int) == skip_end_nodes(p@, pe as int),
            ensures
                pe <= q <= p@.len(),
                skip_end_nodes(p@, pe as int) == q,
            decreases p@.len() - q,
        {
            if p.len() - q < 4 {
                break;
            }
            match token_at(p, q) {
                Some(Token::EndNode) => {
                    q = q + 4;
                },
                _ => {
                    break;
                },
            }
        }
        self.pos = vstd::slice::slice_subrange(p, q, p.len());
        Ok(
            Some(
                Node {
                    name: vstd::slice::slice_subrange(p, 4, ne),
                    strings: st,
                    props: vstd::slice::slice_subrange(p, ne, pe),
                },
            ),
        )
    }
}


/// Whether `s` holds a device tree: the whole header, the right magic number, then
/// `totalsize` bytes, and both blocks start within them.
pub open spec fn fdt_ok(s: Seq<u8>) -> bool {
    &&& s.len() >= HEADER_SIZE
    &&& be32_at(s, 0) == MAGIC
    &&& be32_at(s, 4) <= s.len()
    &&& be32_at(s, 8) <= be32_at(s, 4)
    &&& be32_at(s, 12) <= be32_at(s, 4)
}

/// "memory@", the start of the name of a memory node.
pub open spec fn memory_prefix() -> Seq<u8> {
    seq![0x6du8, 0x65u8, 0x6du8, 0x6fu8, 0x72u8, 0x79u8, 0x40u8]
}

/// What `mem_range` finds in a structure block `p` and strings `st`: the start and the
/// length of the first range of the `reg` property of the first memory node;
/// `Some(None)` when there is none; `None` when the data is malformed, or the range is
/// cut short.
pub open spec fn mem_range_spec(p: Seq<u8>, st: Seq<u8>) -> Option<Option<(int, int)>> {
    match find_node_spec(p, st, memory_prefix()) {
        None => None,
        Some(None) => Some(None),
        Some(Some((_, props))) => match find_prop_spec(props, st, reg_name()) {
            None => None,
            Some(None) => Some(None),
            Some(Some((_, d))) => if d.len() == 0 {
                Some(None)
            } else if d.len() < 16 {
                None
            } else {
                Some(Some((be64_at(d, 0), be64_at(d, 8))))
            },
        },
    }
}

impl<'a> FDT<'a> {
    /// The tree that `data` holds, its blocks cut at `totalsize`.
    pub fn from_bytes(data: &'a [u8]) -> (r: FDT<'a>)
        requires
            fdt_ok(data@),
        ensures
            r.header == header_at(data@),
            r.nodes@ == data@.subrange(be32_at(data@, 8), be32_at(data@, 4)),
            r.strings@ == data@.subrange(be32_at(data@, 12), be32_at(data@, 4)),
    {
        let header = Header::from_bytes(data);
        proof {
            lemma_swap_le32(data@, 4);
            lemma_swap_le32(data@, 8);
            lemma_swap_le32(data@, 12);
        }
        let total = header.totalsize.get() as usize;
        let off_struct = header.off_dt_struct.get() as usize;
        let off_strings = header.off_dt_strings.get() as usize;
        FDT {
            header,
            nodes: vstd::slice::slice_subrange(data, off_struct, total),
            strings: vstd::slice::slice_subrange(data, off_strings, total),
        }
    }

    /// The tree that `data` holds, as `from_bytes` reads it; `BadMagic` when the header
    /// has the wrong magic number, `Malformed` when the header or the blocks do not fit.
    pub fn try_from_bytes(data: &'a [u8]) -> (r: Result<FDT<'a>, FdtError>)
        ensures
            r is Ok <==> fdt_ok(data@),
            r == Err::<FDT<'a>, FdtError>(FdtError::BadMagic) <==> data@.len() >= HEADER_SIZE && be32_at(data@, 0)
                != MAGIC,
            r matches Ok(f) ==> {
                &&& f.header == header_at(data@)
                &&& f.nodes@ == data@.subrange(be32_at(data@, 8), be32_at(data@, 4))
                &&& f.strings@ == data@.subrange(be32_at(data@, 12), be32_at(data@, 4))
            },
            r matches Err(e) ==> e == FdtError::BadMagic || e == FdtError::Malformed,
    {
        if data.len() < HEADER_SIZE {
            return Err(FdtError::Malformed);
        }
        let header = Header::from_bytes(data);
        proof {
            lemma_swap_le32(data@, 0);
            lemma_swap_le32(data@, 4);
            lemma_swap_le32(data@, 8);
            lemma_swap_le32(data@, 12);
        }
        if header.magic.get() != MAGIC {
            return Err(FdtError::BadMagic);
        }
        let total = header.totalsize.get() as usize;
        let off_struct = header.off_dt_struct.get() as usize;
        let off_strings = header.off_dt_strings.get() as usize;
        if total > data.len() || off_struct > total || off_strings > total {
            return Err(FdtError::Malformed);
        }
        Ok(Self::from_bytes(data))
    }

    /// A walk over the tree's nodes.
    pub fn iter(&self) -> (r: NodeIter<'a>)
        ensures
            r.pos == self.nodes,
            r.strings == self.strings,
    {
        NodeIter { pos: self.nodes, strings: self.strings }
    }

    /// The first node whose name starts with `prefix`; `Ok(None)` when the walk ends
    /// first.
    fn find_node_prefixed(&self, prefix: &[u8]) -> (r: Result<Option<Node<'a>>, FdtError>)
        ensures
            match find_node_spec(self.nodes@, self.strings@, prefix@) {
                None => r == Err::<Option<Node<'a>>, FdtError>(FdtError::Malformed),
                Some(None) => r matches Ok(None),
                Some(Some((name, props))) => r matches Ok(Some(n)) && n.name@ == name && n.props@ == props
                    && n.strings == self.strings,
            },
    {
        let mut it = self.iter();
        loop
            invariant
                it.strings == self.strings,
                find_node_spec(it.pos@, self.strings@, prefix@) == find_node_spec(
                    self.nodes@,
                    self.strings@,
                    prefix@,
                ),
            decreases it.pos@.len(),
        {
            let ghost cur = it.pos@;
            match it.next() {
                Err(e) => {
                    return Err(e);
                },
                Ok(None) => {
                    return Ok(None);
                },
                Ok(Some(n)) => {
                    if n.name.len() >= prefix.len() && bytes_eq(
                        vstd::slice::slice_subrange(n.name, 0, prefix.len()),
                        prefix,
                    ) {
                        return Ok(Some(n));
                    }
                    proof {
                        lemma_node_next(cur, self.strings@);
                    }
                },
            }
        }
    }

    /// The first range of the `reg` property of the first node whose name starts with
    /// "memory@".
    pub fn mem_range(&self) -> (r: FDTMemRange)
        requires
            mem_range_spec(self.nodes@, self.strings@) matches Some(Some(_)),
        ensures
            mem_range_spec(self.nodes@, self.strings@) matches Some(Some((start, len))) && r.start.0.from_be_spec()
                == start && r.len.0.from_be_spec() == len,
    {
        match self.try_mem_range() {
            Ok(Some(m)) => m,
            _ => {
                proof {
                    assert(false);
                }
                FDTMemRange { start: Be(0), len: Be(0) }
            },
        }
    }

    /// The range that `mem_range` gives, where there is one; `Ok(None)` when there is no
    /// such node, property or range; `Malformed` when the tree is cut short or the
    /// range is.
    pub fn try_mem_range(&self) -> (r: Result<Option<FDTMemRange>, FdtError>)
        ensures
            match mem_range_spec(self.nodes@, self.strings@) {
                None => r == Err::<Option<FDTMemRange>, FdtError>(FdtError::Malformed),
                Some(None) => r matches Ok(None),
                Some(Some((start, len))) => r matches Ok(Some(m)) && m.start.0.from_be_spec() == start
                    && m.len.0.from_be_spec() == len,
            },
    {
        let prefix = "memory@".as_bytes();
        proof {
            reveal_strlit("memory@");
            vstd::string::is_ascii_spec_bytes("memory@");
            assert(prefix@ =~= memory_prefix());
        }
        let node = match self.find_node_prefixed(prefix) {
            Err(e) => {
                return Err(e);
            },
            Ok(None) => {
                return Ok(None);
            },
            Ok(Some(n)) => n,
        };
        proof {
            reveal_strlit("reg");
            vstd::string::is_ascii_spec_bytes("reg");
            assert("reg".spec_bytes() =~= reg_name());
        }
        let prop = match node.find_prop("reg") {
            Err(e) => {
                return Err(e);
            },
            Ok(None) => {
                return Ok(None);
            },
            Ok(Some(p)) => p,
        };
        let d = prop.data;
        if d.len() == 0 {
            return Ok(None);
        }
        if d.len() < 16 {
            return Err(FdtError::Malformed);
        }
        proof {
            lemma_swap_le64(d@, 0);
            lemma_swap_le64(d@, 8);
        }
        Ok(Some(FDTMemRange { start: Be(read_le64(d, 0)), len: Be(read_le64(d, 8)) }))
    }
}

impl FDTMemRange {
    pub fn start(&self) -> (r: u64)
        ensures
            r == self.start.0.from_be_spec(),
    {
        self.start.get()
    }

    pub fn len(&self) -> (r: u64)
        ensures
            r == self.len.0.from_be_spec(),
    {
        self.len.get()
    }

    /// The address just past the range.
    pub fn end(&self) -> (r: u64)
        requires
            self.start.0.from_be_spec() + self.len.0.from_be_spec() <= u64::MAX,
        ensures
            r == self.start.0.from_be_spec() + self.len.0.from_be_spec(),
    {
        self.start() + self.len.get()
    }
}

/// The memory range is the first sixteen bytes of the memory node's `reg` data: its
/// start is bytes 0..8 and its length bytes 8..16, each a whole big-endian 64-bit
/// number whose first byte weighs 2^56 and whose last weighs 1.
pub proof fn lemma_mem_range_bytes(p: Seq<u8>, st: Seq<u8>, props: Seq<u8>, d: Seq<u8>)
    requires
        find_node_spec(p, st, memory_prefix()) matches Some(Some((_n, q))) && q == props,
        find_prop_spec(props, st, reg_name()) matches Some(Some((_m, e))) && e == d,
        d.len() >= 16,
    ensures
        mem_range_spec(p, st) == Some(Some((
            d[0] * 0x100000000000000 + d[1] * 0x1000000000000 + d[2] * 0x10000000000 + d[3] * 0x100000000 + d[4] * 0x1000000 + d[5] * 0x10000 + d[6] * 0x100 + d[7] * 1,
            d[8] * 0x100000000000000 + d[9] * 0x1000000000000 + d[10] * 0x10000000000 + d[11] * 0x100000000 + d[12] * 0x1000000 + d[13] * 0x10000 + d[14] * 0x100 + d[15] * 1,
        ))),
{
}

} // verus!
