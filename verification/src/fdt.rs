//! A flattened device tree read straight from its bytes: find a node by the start of
//! its name, and a property of a node by the start of its name.
//!
//! The structure block is a run of big-endian 4-byte tokens.  A node starts with
//! `BeginNode` and its name (zero-terminated, padded to whole 4-byte words), then its
//! properties, each a `Prop` token, the data's length and the name's offset in the
//! strings block, and the data padded to whole words; `EndNode` closes a node and `End`
//! the tree.  Data that ends early, or holds a token of no known kind, is malformed.
use vstd::prelude::*;
use crate::util::bits::{be32_at, be64_at, read_be32, read_be64};
use vstd::string::StringSliceAdditionalSpecFns;

verus! {

pub const MAGIC: u32 = 0xd00dfeed;
pub const TOKEN_SIZE: usize = 4;
pub const HEADER_SIZE: usize = 40;
pub const PROP_SIZE: usize = 8;

/// The kinds of token in the structure block.
#[derive(Clone, Copy, Debug, PartialEq, Eq)]
pub enum Token {
    BeginNode,
    EndNode,
    Prop,
    Nop,
    End,
}

/// The token that a value encodes.
pub open spec fn token_of(v: int) -> Option<Token> {
    if v == 1 {
        Some(Token::BeginNode)
    } else if v == 2 {
        Some(Token::EndNode)
    } else if v == 3 {
        Some(Token::Prop)
    } else if v == 4 {
        Some(Token::Nop)
    } else if v == 9 {
        Some(Token::End)
    } else {
        None
    }
}

/// The token whose four bytes start at `off`; `None` for a value of no known kind.
pub(crate) fn token_at(data: &[u8], off: usize) -> (r: Option<Token>)
    requires
        off + TOKEN_SIZE <= data@.len(),
    ensures
        r == token_of(be32_at(data@, off as int)),
{
    Token::from_value(read_be32(data, off))
}

impl Token {
    /// The token that the first four bytes encode; `None` for a value of no known kind.
    pub fn from_bytes(data: &[u8]) -> (r: Option<Token>)
        requires
            data@.len() >= TOKEN_SIZE,
        ensures
            r == token_of(be32_at(data@, 0)),
    {
        token_at(data, 0)
    }
}

impl Token {
    /// The token that a value encodes.
    pub fn from_value(v: u32) -> (r: Option<Token>)
        ensures
            r == token_of(v as int),
    {
        if v == 1 {
            Some(Token::BeginNode)
        } else if v == 2 {
            Some(Token::EndNode)
        } else if v == 3 {
            Some(Token::Prop)
        } else if v == 4 {
            Some(Token::Nop)
        } else if v == 9 {
            Some(Token::End)
        } else {
            None
        }
    }
}

/// The device tree header: ten big-endian words.
#[derive(Clone, Copy, Debug, PartialEq, Eq)]
pub struct Header {
    pub magic: u32,
    pub totalsize: u32,
    pub off_dt_struct: u32,
    pub off_dt_strings: u32,
    pub off_mem_rsvmap: u32,
    pub version: u32,
    pub last_comp_version: u32,
    pub boot_cpuid_phys: u32,
    pub size_dt_strings: u32,
    pub size_dt_struct: u32,
}

/// The header that the first forty bytes of `s` hold.
pub open spec fn header_of(s: Seq<u8>) -> Header {
    Header {
        magic: be32_at(s, 0) as u32,
        totalsize: be32_at(s, 4) as u32,
        off_dt_struct: be32_at(s, 8) as u32,
        off_dt_strings: be32_at(s, 12) as u32,
        off_mem_rsvmap: be32_at(s, 16) as u32,
        version: be32_at(s, 20) as u32,
        last_comp_version: be32_at(s, 24) as u32,
        boot_cpuid_phys: be32_at(s, 28) as u32,
        size_dt_strings: be32_at(s, 32) as u32,
        size_dt_struct: be32_at(s, 36) as u32,
    }
}

impl Header {
    pub fn from_bytes(data: &[u8]) -> (r: Header)
        requires
            data@.len() >= HEADER_SIZE,
        ensures
            r == header_of(data@),
    {
        Header {
            magic: read_be32(data, 0),
            totalsize: read_be32(data, 4),
            off_dt_struct: read_be32(data, 8),
            off_dt_strings: read_be32(data, 12),
            off_mem_rsvmap: read_be32(data, 16),
            version: read_be32(data, 20),
            last_comp_version: read_be32(data, 24),
            boot_cpuid_phys: read_be32(data, 28),
            size_dt_strings: read_be32(data, 32),
            size_dt_struct: read_be32(data, 36),
        }
    }
}

/// A property's head: the length of its data and the offset of its name.
#[derive(Clone, Copy, Debug, PartialEq, Eq)]
pub struct Prop {
    pub len: u32,
    pub nameoff: u32,
}

impl Prop {
    pub fn from_bytes(data: &[u8]) -> (r: Prop)
        requires
            data@.len() >= PROP_SIZE,
        ensures
            r.len == be32_at(data@, 0),
            r.nameoff == be32_at(data@, 4),
    {
        Prop { len: read_be32(data, 0), nameoff: read_be32(data, 4) }
    }
}

/// A device tree known by its header.
pub struct FDT {
    pub header: Header,
}

impl FDT {
    pub fn new(data: &[u8]) -> (r: Self)
        requires
            data@.len() >= HEADER_SIZE,
        ensures
            r.header == header_of(data@),
    {
        let header = Header::from_bytes(data);
        Self { header }
    }
}

/// Why a walk over the tree stopped short.
#[derive(Clone, Copy, Debug, PartialEq, Eq)]
pub enum FdtError {
    /// The header's magic number is wrong.
    BadMagic,
    /// The data ends inside a token, name or property, points past its end, or holds a
    /// token of no known kind.
    Malformed,
}

/// `len` rounded up to whole tokens.
pub open spec fn align4(len: int) -> int {
    ((len + 3) / 4) * 4
}

/// Offset just past the name that starts at `off`: whole words up to the first one
/// that holds a zero byte; `None` when the data ends first.
pub open spec fn name_end(s: Seq<u8>, off: int) -> Option<int>
    decreases s.len() - off,
{
    if off < 0 || off + 4 > s.len() {
        None
    } else if s[off] == 0 || s[off + 1] == 0 || s[off + 2] == 0 || s[off + 3] == 0 {
        Some(off + 4)
    } else {
        name_end(s, off + 4)
    }
}

/// Number of bytes from `off` up to the first zero byte or the end.
pub open spec fn cstr_len(s: Seq<u8>, off: int) -> nat
    decreases s.len() - off,
{
    if off < 0 || off >= s.len() || s[off] == 0 {
        0
    } else {
        1 + cstr_len(s, off + 1)
    }
}

/// The text from `off` to the first zero byte starts with `check`.
pub open spec fn starts_with_at(s: Seq<u8>, off: int, check: Seq<u8>) -> bool {
    cstr_len(s, off) >= check.len() && s.subrange(off, off + check.len()) == check
}

/// Offset of the first token at or after `off` that is no `Prop`, skipping whole
/// properties; `None` when the data is malformed.
pub open spec fn props_end(s: Seq<u8>, off: int) -> Option<int>
    decreases s.len() - off,
{
    if off < 0 || off + 4 > s.len() {
        None
    } else {
        match token_of(be32_at(s, off)) {
            None => None,
            Some(Token::Prop) => {
                if off + 12 > s.len() {
                    None
                } else {
                    let next = off + 12 + align4(be32_at(s, off + 4));
                    if next > s.len() {
                        None
                    } else {
                        props_end(s, next)
                    }
                }
            },
            Some(_) => Some(off),
        }
    }
}

pub proof fn lemma_name_end(s: Seq<u8>, off: int)
    ensures
        name_end(s, off) matches Some(e) ==> off + 4 <= e <= s.len(),
    decreases s.len() - off,
{
    if off >= 0 && off + 4 <= s.len() && !(s[off] == 0 || s[off + 1] == 0 || s[off + 2] == 0 || s[off + 3] == 0) {
        lemma_name_end(s, off + 4);
    }
}

pub proof fn lemma_props_end(s: Seq<u8>, off: int)
    ensures
        props_end(s, off) matches Some(q) ==> off <= q && q + 4 <= s.len(),
    decreases s.len() - off,
{
    if off >= 0 && off + 4 <= s.len() {
        if token_of(be32_at(s, off)) == Some(Token::Prop) && off + 12 <= s.len() {
            let next = off + 12 + align4(be32_at(s, off + 4));
            if next <= s.len() {
                lemma_props_end(s, next);
            }
        }
    }
}

/// The walk of `find_node`: the offset of the properties of the first node, from `off`
/// on, whose name starts with `check`; `Some(None)` when `End` comes first.
pub open spec fn find_from(s: Seq<u8>, check: Seq<u8>, off: int) -> Option<Option<int>>
    decreases s.len() - off,
{
    if off < 0 || off + 4 > s.len() {
        None
    } else {
        match token_of(be32_at(s, off)) {
            None => None,
            Some(Token::End) => Some(None),
            Some(Token::EndNode) => find_from(s, check, off + 4),
            Some(_) => match name_end(s, off + 4) {
                None => None,
                Some(e) => if starts_with_at(s, off + 4, check) {
                    Some(Some(e))
                } else {
                    match props_end(s, e) {
                        None => None,
                        Some(q) => {
                            proof {
                                lemma_name_end(s, off + 4);
                                lemma_props_end(s, e);
                            }
                            find_from(s, check, q)
                        },
                    }
                },
            },
        }
    }
}

/// The walk of `get_prop`: where the data of the first property, from `off` on, whose
/// name starts with `check` lies, as its offset and length; `Some(None)` when the
/// properties end first.
pub open spec fn prop_from(d: Seq<u8>, st: Seq<u8>, check: Seq<u8>, off: int) -> Option<Option<(int, int)>>
    decreases d.len() - off,
{
    if off < 0 || off + 4 > d.len() {
        None
    } else {
        match token_of(be32_at(d, off)) {
            None => None,
            Some(Token::Prop) => {
                if off + 12 > d.len() {
                    None
                } else {
                    let len = be32_at(d, off + 4);
                    let nameoff = be32_at(d, off + 8);
                    let q = off + 12;
                    if nameoff > st.len() {
                        None
                    } else if starts_with_at(st, nameoff, check) {
                        if q + len > d.len() {
                            None
                        } else {
                            Some(Some((q, len)))
                        }
                    } else if q + align4(len) > d.len() {
                        None
                    } else {
                        prop_from(d, st, check, q + align4(len))
                    }
                }
            },
            Some(_) => Some(None),
        }
    }
}


proof fn lemma_cstr_len_nonzero(s: Seq<u8>, off: int, n: int)
    requires
        0 <= off <= s.len(),
        0 <= n,
        cstr_len(s, off) >= n,
    ensures
        off + n <= s.len(),
        forall|k: int| off <= k < off + n ==> #[trigger] s[k] != 0,
    decreases n,
{
    if n > 0 {
        lemma_cstr_len_nonzero(s, off + 1, n - 1);
    }
}

proof fn lemma_cstr_len_at_least(s: Seq<u8>, off: int, n: int)
    requires
        0 <= off,
        0 <= n,
        off + n <= s.len(),
        forall|k: int| off <= k < off + n ==> #[trigger] s[k] != 0,
    ensures
        cstr_len(s, off) >= n,
    decreases n,
{
    if n > 0 {
        assert(s[off] != 0);
        lemma_cstr_len_at_least(s, off + 1, n - 1);
    }
}

/// The length of the zero-terminated text at `o`.
pub(crate) fn cstr_length(st: &[u8], o: usize) -> (r: usize)
    requires
        o <= st@.len(),
    ensures
        r == cstr_len(st@, o as int),
        o + r <= st@.len(),
{
    let mut i = o;
    while i < st.len() && st[i] != 0
        invariant
            o <= i <= st@.len(),
            cstr_len(st@, o as int) == (i - o) + cstr_len(st@, i as int),
        decreases st@.len() - i,
    {
        i = i + 1;
    }
    i - o
}

/// Whether the zero-terminated text at `off` starts with `check`.
fn starts_with(data: &[u8], off: usize, check: &[u8]) -> (r: bool)
    requires
        off <= data@.len(),
    ensures
        r == starts_with_at(data@, off as int, check@),
{
    let n = check.len();
    let mut i: usize = 0;
    while i < n
        invariant
            off <= data@.len(),
            n == check@.len(),
            i <= n,
            off + i <= data@.len(),
            forall|j: int| 0 <= j < i ==> data@[off + j] != 0 && #[trigger] data@[off + j] == check@[j],
        decreases n - i,
    {
        if i >= data.len() - off || data[off + i] == 0 || data[off + i] != check[i] {
            proof {
                if cstr_len(data@, off as int) >= n {
                    lemma_cstr_len_nonzero(data@, off as int, n as int);
                    assert(data@[off + i] != 0);
                    assert(data@[off + (n - 1)] != 0);
                    assert(data@.subrange(off as int, off + n)[i as int] == data@[off + i]);
                }
            }
            return false;
        }
        i = i + 1;
    }
    proof {
        assert forall|k: int| off <= k < off + n implies #[trigger] data@[k] != 0 by {
            assert(0 <= k - off < i);
            assert(off + (k - off) == k);
            assert(data@[off + (k - off)] == check@[k - off]);
        }
        lemma_cstr_len_at_least(data@, off as int, n as int);
        assert forall|j: int| 0 <= j < n implies #[trigger] data@.subrange(off as int, off + n)[j] == check@[j] by {
            assert(data@[off + j] == check@[j]);
        }
        assert(data@.subrange(off as int, off + n) =~= check@);
    }
    true
}

/// Offset just past the name that starts at `off` (see `name_end`).
pub(crate) fn scan_name(data: &[u8], off: usize) -> (r: Option<usize>)
    ensures
        r matches Some(e) ==> name_end(data@, off as int) == Some(e as int),
        r is None <==> name_end(data@, off as int) is None,
{
    let mut p = off;
    while p <= data.len() && 4 <= data.len() - p
        invariant
            name_end(data@, p as int) == name_end(data@, off as int),
        decreases data.len() - p,
    {
        if data[p] == 0 || data[p + 1] == 0 || data[p + 2] == 0 || data[p + 3] == 0 {
            return Some(p + 4);
        }
        p = p + 4;
    }
    None
}

/// Offset of the first token at or after `off` that is no property (see `props_end`).
fn skip_props(data: &[u8], off: usize) -> (r: Option<usize>)
    ensures
        r matches Some(q) ==> props_end(data@, off as int) == Some(q as int),
        r is None <==> props_end(data@, off as int) is None,
{
    let mut p = off;
    loop
        invariant
            props_end(data@, p as int) == props_end(data@, off as int),
        decreases data.len() - p,
    {
        if p > data.len() || data.len() - p < 4 {
            return None;
        }
        match token_at(data, p) {
            None => {
                return None;
            },
            Some(Token::Prop) => {
                if data.len() - p < 12 {
                    return None;
                }
                let len = read_be32(data, p + 4) as u64;
                let padded = (len + 3) / 4 * 4;
                if ((data.len() - p - 12) as u64) < padded {
                    return None;
                }
                p = p + 12 + padded as usize;
            },
            Some(_) => {
                return Some(p);
            },
        }
    }
}

/// Whether a header and the data it heads agree: the data holds the whole header and
/// `totalsize` bytes, and both blocks start within them.
pub open spec fn raw_fdt_ok(s: Seq<u8>) -> bool {
    &&& s.len() >= HEADER_SIZE
    &&& header_of(s).totalsize <= s.len()
    &&& header_of(s).off_dt_struct <= header_of(s).totalsize
    &&& header_of(s).off_dt_strings <= header_of(s).totalsize
}

/// A device tree with its structure and strings blocks.
pub struct RawFDT<'a> {
    pub header: Header,
    pub nodes: &'a [u8],
    pub strings: &'a [u8],
}

/// A node: the strings block, and its data from its first property on.
pub struct RawNode<'a> {
    pub strings: &'a [u8],
    pub data: &'a [u8],
}

impl<'a> RawFDT<'a> {
    /// The tree that `data` holds, its blocks cut at `totalsize`.
    pub fn new(data: &'a [u8]) -> (r: Result<RawFDT<'a>, FdtError>)
        ensures
            r is Ok <==> raw_fdt_ok(data@),
            r matches Err(e) ==> e == FdtError::Malformed,
            r matches Ok(f) ==> {
                let h = header_of(data@);
                &&& f.header == h
                &&& f.nodes@ == data@.subrange(h.off_dt_struct as int, h.totalsize as int)
                &&& f.strings@ == data@.subrange(h.off_dt_strings as int, h.totalsize as int)
            },
    {
        if data.len() < HEADER_SIZE {
            return Err(FdtError::Malformed);
        }
        let header = Header::from_bytes(data);
        let total = header.totalsize as usize;
        let off_struct = header.off_dt_struct as usize;
        let off_strings = header.off_dt_strings as usize;
        if total > data.len() || off_struct > total || off_strings > total {
            return Err(FdtError::Malformed);
        }
        Ok(RawFDT {
            header,
            nodes: vstd::slice::slice_subrange(data, off_struct, total),
            strings: vstd::slice::slice_subrange(data, off_strings, total),
        })
    }

    /// The first node whose name starts with `name`, from its first property on;
    /// `Ok(None)` when the tree ends first.
    pub fn find_node(&self, name: &str) -> (r: Result<Option<RawNode<'a>>, FdtError>)
        ensures
            match find_from(self.nodes@, name.spec_bytes(), 0) {
                None => r == Err::<Option<RawNode<'a>>, FdtError>(FdtError::Malformed),
                Some(None) => r matches Ok(None),
                Some(Some(p)) => r matches Ok(Some(n)) && n.strings@ == self.strings@ && n.data@
                    == self.nodes@.subrange(p, self.nodes@.len() as int),
            },
    {
        let check = name.as_bytes();
        let data = self.nodes;
        let mut pos: usize = 0;
        loop
            invariant
                data@ == self.nodes@,
                check@ == name.spec_bytes(),
                find_from(data@, check@, pos as int) == find_from(data@, check@, 0),
            decreases data.len() - pos,
        {
            if pos > data.len() || data.len() - pos < 4 {
                return Err(FdtError::Malformed);
            }
            match token_at(data, pos) {
                None => {
                    return Err(FdtError::Malformed);
                },
                Some(Token::End) => {
                    return Ok(None);
                },
                Some(Token::EndNode) => {
                    pos = pos + 4;
                },
                Some(_) => {
                    let e = match scan_name(data, pos + 4) {
                        None => {
                            return Err(FdtError::Malformed);
                        },
                        Some(e) => e,
                    };
                    proof {
                        lemma_name_end(data@, pos + 4);
                    }
                    if starts_with(data, pos + 4, check) {
                        return Ok(Some(RawNode { strings: self.strings, data: vstd::slice::slice_subrange(data, e, data.len()) }));
                    }
                    match skip_props(data, e) {
                        None => {
                            return Err(FdtError::Malformed);
                        },
                        Some(q) => {
                            proof {
                                lemma_props_end(data@, e as int);
                            }
                            pos = q;
                        },
                    }
                },
            }
        }
    }
}

impl<'a> RawNode<'a> {
    /// The rest of the node's data once its properties are passed: it starts at the
    /// first token that is no property.
    pub fn pass_props(&self) -> (r: Result<&'a [u8], FdtError>)
        ensures
            match props_end(self.data@, 0) {
                None => r == Err::<&'a [u8], FdtError>(FdtError::Malformed),
                Some(q) => r matches Ok(rest) && rest@ == self.data@.subrange(q, self.data@.len() as int),
            },
    {
        match skip_props(self.data, 0) {
            None => Err(FdtError::Malformed),
            Some(q) => {
                proof {
                    lemma_props_end(self.data@, 0);
                }
                Ok(vstd::slice::slice_subrange(self.data, q, self.data.len()))
            },
        }
    }

    /// The data of the first property whose name starts with `name`; `Ok(None)` when
    /// the properties end first.
    pub fn get_prop(&self, name: &str) -> (r: Result<Option<&'a [u8]>, FdtError>)
        ensures
            match prop_from(self.data@, self.strings@, name.spec_bytes(), 0) {
                None => r == Err::<Option<&'a [u8]>, FdtError>(FdtError::Malformed),
                Some(None) => r matches Ok(None),
                Some(Some((q, len))) => r matches Ok(Some(v)) && v@ == self.data@.subrange(q, q + len),
            },
    {
        let check = name.as_bytes();
        let data = self.data;
        let st = self.strings;
        let mut pos: usize = 0;
        loop
            invariant
                data@ == self.data@,
                st@ == self.strings@,
                check@ == name.spec_bytes(),
                prop_from(data@, st@, check@, pos as int) == prop_from(data@, st@, check@, 0),
            decreases data.len() - pos,
        {
            if pos > data.len() || data.len() - pos < 4 {
                return Err(FdtError::Malformed);
            }
            match token_at(data, pos) {
                None => {
                    return Err(FdtError::Malformed);
                },
                Some(Token::Prop) => {
                    if data.len() - pos < 12 {
                        return Err(FdtError::Malformed);
                    }
                    let len = read_be32(data, pos + 4) as usize;
                    let nameoff = read_be32(data, pos + 8) as usize;
                    let q = pos + 12;
                    if nameoff > st.len() {
                        return Err(FdtError::Malformed);
                    }
                    if starts_with(st, nameoff, check) {
                        if data.len() - q < len {
                            return Err(FdtError::Malformed);
                        }
                        return Ok(Some(vstd::slice::slice_subrange(data, q, q + len)));
                    }
                    let padded = (len as u64 + 3) / 4 * 4;
                    if ((data.len() - q) as u64) < padded {
                        return Err(FdtError::Malformed);
                    }
                    pos = q + padded as usize;
                },
                Some(_) => {
                    return Ok(None);
                },
            }
        }
    }
}


/// A property as the listing shows it: its name and its head.
pub struct PropLine<'a> {
    pub name: &'a [u8],
    pub prop: Prop,
}

/// A node as the listing shows it: its name and its properties.
pub struct NodeLine<'a> {
    pub name: &'a [u8],
    pub props: Vec<PropLine<'a>>,
}

pub open spec fn prop_lines_view<'a>(v: Seq<PropLine<'a>>) -> Seq<(Seq<u8>, Prop)> {
    v.map_values(|p: PropLine<'a>| (p.name@, p.prop))
}

pub open spec fn node_lines_view<'a>(v: Seq<NodeLine<'a>>) -> Seq<(Seq<u8>, Seq<(Seq<u8>, Prop)>)> {
    v.map_values(|n: NodeLine<'a>| (n.name@, prop_lines_view(n.props@)))
}

/// The zero-terminated text at `off`, without its zero (up to the end when there is
/// none).
pub open spec fn cstr_at(s: Seq<u8>, off: int) -> Seq<u8> {
    s.subrange(off, off + cstr_len(s, off))
}

/// The properties from `off` on, each by its name and its head, and the offset where
/// they end; `None` when one runs past the data or its name's offset past the strings.
pub open spec fn props_listing(s: Seq<u8>, st: Seq<u8>, off: int) -> Option<(Seq<(Seq<u8>, Prop)>, int)>
    decreases s.len() - off,
{
    if off < 0 || off + 4 > s.len() {
        None
    } else {
        match token_of(be32_at(s, off)) {
            None => None,
            Some(Token::Prop) => {
                let len = be32_at(s, off + 4);
                let nameoff = be32_at(s, off + 8);
                let next = off + 12 + align4(len);
                if off + 12 > s.len() || nameoff > st.len() || next > s.len() {
                    None
                } else {
                    match props_listing(s, st, next) {
                        None => None,
                        Some((rest, q)) => Some(
                            (
                                seq![(cstr_at(st, nameoff), Prop { len: len as u32, nameoff: nameoff as u32 })]
                                    + rest,
                                q,
                            ),
                        ),
                    }
                }
            },
            Some(_) => Some((seq![], off)),
        }
    }
}

pub proof fn lemma_props_listing(s: Seq<u8>, st: Seq<u8>, off: int)
    ensures
        props_listing(s, st, off) matches Some((_, q)) ==> off <= q <= s.len(),
    decreases s.len() - off,
{
    if off >= 0 && off + 4 <= s.len() && token_of(be32_at(s, off)) == Some(Token::Prop) {
        let next = off + 12 + align4(be32_at(s, off + 4));
        if off + 12 <= s.len() && next <= s.len() {
            lemma_props_listing(s, st, next);
        }
    }
}

/// The nodes from `off` on, each by its name and its properties, up to `End`; `None`
/// when the data is malformed.
pub open spec fn nodes_listing(s: Seq<u8>, st: Seq<u8>, off: int) -> Option<Seq<(Seq<u8>, Seq<(Seq<u8>, Prop)>)>>
    decreases s.len() - off,
{
    if off < 0 || off + 4 > s.len() {
        None
    } else {
        match token_of(be32_at(s, off)) {
            None => None,
            Some(Token::End) => Some(seq![]),
            Some(Token::EndNode) => nodes_listing(s, st, off + 4),
            Some(_) => match name_end(s, off + 4) {
                None => None,
                Some(e) => match props_listing(s, st, e) {
                    None => None,
                    Some((ps, q)) => {
                        proof {
                            lemma_name_end(s, off + 4);
                            lemma_props_listing(s, st, e);
                        }
                        match nodes_listing(s, st, q) {
                            None => None,
                            Some(rest) => Some(seq![(cstr_at(s, off + 4), ps)] + rest),
                        }
                    }
                },
            },
        }
    }
}

/// `acc` put in front of the listing `o`.
pub open spec fn after<T>(acc: Seq<T>, o: Option<Seq<T>>) -> Option<Seq<T>> {
    match o {
        None => None,
        Some(rest) => Some(acc + rest),
    }
}

impl<'a> RawNode<'a> {
    /// The node's properties, each by its name and its head, and the rest of its data
    /// past them.
    pub fn prop_lines(&self) -> (r: Result<(Vec<PropLine<'a>>, &'a [u8]), FdtError>)
        ensures
            match props_listing(self.data@, self.strings@, 0) {
                None => r == Err::<(Vec<PropLine<'a>>, &'a [u8]), FdtError>(FdtError::Malformed),
                Some((ls, q)) => r matches Ok((v, rest)) && prop_lines_view(v@) == ls && rest@
                    == self.data@.subrange(q, self.data@.len() as int),
            },
    {
        let data = self.data;
        let st = self.strings;
        let mut lines: Vec<PropLine<'a>> = Vec::new();
        let mut pos: usize = 0;
        loop
            invariant
                data@ == self.data@,
                st@ == self.strings@,
                props_listing(data@, st@, 0) == match props_listing(data@, st@, pos as int) {
                    None => None,
                    Some((rest, q)) => Some((prop_lines_view(lines@) + rest, q)),
                },
            decreases data.len() - pos,
        {
            if pos > data.len() || data.len() - pos < 4 {
                return Err(FdtError::Malformed);
            }
            match token_at(data, pos) {
                None => {
                    return Err(FdtError::Malformed);
                },
                Some(Token::Prop) => {
                    if data.len() - pos < 12 {
                        return Err(FdtError::Malformed);
                    }
                    let len = read_be32(data, pos + 4);
                    let nameoff = read_be32(data, pos + 8);
                    let padded = (len as u64 + 3) / 4 * 4;
                    if nameoff as usize > st.len() || ((data.len() - pos - 12) as u64) < padded {
                        return Err(FdtError::Malformed);
                    }
                    let o = nameoff as usize;
                    let n = cstr_length(st, o);
                    let ghost before = lines@;
                    lines.push(PropLine { name: vstd::slice::slice_subrange(st, o, o + n), prop: Prop { len, nameoff } });
                    proof {
                        assert(prop_lines_view(lines@) =~= prop_lines_view(before) + seq![
                            (cstr_at(st@, nameoff as int), Prop { len, nameoff }),
                        ]);
                        lemma_props_listing(data@, st@, pos + 12 + padded);
                    }
                    pos = pos + 12 + padded as usize;
                },
                Some(_) => {
                    proof {
                        assert(prop_lines_view(lines@) + seq![] =~= prop_lines_view(lines@));
                    }
                    return Ok((lines, vstd::slice::slice_subrange(data, pos, data.len())));
                },
            }
        }
    }
}

impl<'a> RawFDT<'a> {
    /// Every node up to `End`, each by its name and its properties.
    pub fn node_lines(&self) -> (r: Result<Vec<NodeLine<'a>>, FdtError>)
        ensures
            match nodes_listing(self.nodes@, self.strings@, 0) {
                None => r == Err::<Vec<NodeLine<'a>>, FdtError>(FdtError::Malformed),
                Some(ls) => r matches Ok(v) && node_lines_view(v@) == ls,
            },
    {
        let data = self.nodes;
        let st = self.strings;
        let mut lines: Vec<NodeLine<'a>> = Vec::new();
        let mut pos: usize = 0;
        loop
            invariant
                data@ == self.nodes@,
                st@ == self.strings@,
                nodes_listing(data@, st@, 0) == after(node_lines_view(lines@), nodes_listing(data@, st@, pos as int)),
            decreases data.len() - pos,
        {
            if pos > data.len() || data.len() - pos < 4 {
                return Err(FdtError::Malformed);
            }
            match token_at(data, pos) {
                None => {
                    return Err(FdtError::Malformed);
                },
                Some(Token::End) => {
                    proof {
                        assert(node_lines_view(lines@) + seq![] =~= node_lines_view(lines@));
                    }
                    return Ok(lines);
                },
                Some(Token::EndNode) => {
                    pos = pos + 4;
                },
                Some(_) => {
                    let e = match scan_name(data, pos + 4) {
                        None => {
                            return Err(FdtError::Malformed);
                        },
                        Some(e) => e,
                    };
                    proof {
                        lemma_name_end(data@, pos + 4);
                    }
                    let n = cstr_length(data, pos + 4);
                    let node = RawNode { strings: st, data: vstd::slice::slice_subrange(data, e, data.len()) };
                    let (props, rest) = match node.prop_lines() {
                        Err(err) => {
                            proof {
                                lemma_props_listing_shift(data@, st@, e as int);
                            }
                            return Err(err);
                        },
                        Ok(pr) => pr,
                    };
                    proof {
                        lemma_props_listing_shift(data@, st@, e as int);
                        lemma_props_listing(data@, st@, e as int);
                    }
                    let q = data.len() - rest.len();
                    let ghost before = lines@;
                    lines.push(NodeLine { name: vstd::slice::slice_subrange(data, pos + 4, pos + 4 + n), props });
                    proof {
                        assert(node_lines_view(lines@) =~= node_lines_view(before) + seq![
                            (cstr_at(data@, pos + 4), prop_lines_view(props@)),
                        ]);
                        if let Some(rest) = nodes_listing(data@, st@, q as int) {
                            assert(node_lines_view(before) + (seq![
                                (cstr_at(data@, pos + 4), prop_lines_view(props@)),
                            ] + rest) =~= node_lines_view(lines@) + rest);
                        }
                    }
                    pos = q;
                },
            }
        }
    }
}

/// The listing of the properties at `e` is the listing of the properties at the start
/// of the data from `e` on, its end shifted by `e`.
proof fn lemma_props_listing_shift(s: Seq<u8>, st: Seq<u8>, e: int)
    requires
        0 <= e <= s.len(),
    ensures
        props_listing(s, st, e) == match props_listing(s.subrange(e, s.len() as int), st, 0) {
            None => None,
            Some((ls, q)) => Some((ls, q + e)),
        },
{
    lemma_props_listing_shift_at(s, st, e, e);
}

proof fn lemma_props_listing_shift_at(s: Seq<u8>, st: Seq<u8>, e: int, off: int)
    requires
        0 <= e <= off <= s.len(),
    ensures
        props_listing(s, st, off) == match props_listing(s.subrange(e, s.len() as int), st, off - e) {
            None => None,
            Some((ls, q)) => Some((ls, q + e)),
        },
    decreases s.len() - off,
{
    let t = s.subrange(e, s.len() as int);
    let k = off - e;
    if off + 4 <= s.len() {
        assert(be32_at(t, k) == be32_at(s, off));
        if token_of(be32_at(s, off)) == Some(Token::Prop) && off + 12 <= s.len() {
            assert(be32_at(t, k + 4) == be32_at(s, off + 4));
            assert(be32_at(t, k + 8) == be32_at(s, off + 8));
            let next = off + 12 + align4(be32_at(s, off + 4));
            if next <= s.len() {
                lemma_props_listing_shift_at(s, st, e, next);
                assert(next - e == k + 12 + align4(be32_at(t, k + 4)));
            }
        }
    }
}


/// The first `size` bytes of `data`, each four-byte group reversed (a short last group
/// too).
pub open spec fn be_32_spec(data: Seq<u8>, size: int) -> Seq<u8> {
    Seq::new(
        size as nat,
        |i: int|
            {
                let c = i - i % 4;
                let l = if size - c < 4 {
                    size - c
                } else {
                    4
                };
                data[c + l - 1 - (i - c)]
            },
    )
}

/// The first `size` bytes of `data` with each group of four reversed: big-endian words
/// in the targets' byte order.
pub fn be_32(data: &[u8], size: usize) -> (r: Vec<u8>)
    requires
        size <= data@.len(),
    ensures
        r@ == be_32_spec(data@, size as int),
{
    let mut out: Vec<u8> = Vec::new();
    let mut c: usize = 0;
    while c < size
        invariant
            size <= data@.len(),
            c % 4 == 0,
            c <= size,
            out@.len() == c,
            forall|i: int| 0 <= i < out@.len() ==> #[trigger] out@[i] == be_32_spec(data@, size as int)[i],
        decreases size - c,
    {
        let l = if size - c < 4 {
            size - c
        } else {
            4
        };
        let mut j: usize = 0;
        while j < l
            invariant
                size <= data@.len(),
                c % 4 == 0,
                c < size,
                l == (if size - c < 4 {
                    size - c
                } else {
                    4
                }),
                j <= l,
                out@.len() == c + j,
                forall|i: int| 0 <= i < out@.len() ==> #[trigger] out@[i] == be_32_spec(data@, size as int)[i],
            decreases l - j,
        {
            let ghost i = c + j;
            assert(i - i % 4 == c && i % 4 == j) by {
                assert(c + j == 4 * (c / 4) + j);
                vstd::arithmetic::div_mod::lemma_fundamental_div_mod_converse((c + j) as int, 4, (c / 4) as int, j as int);
            }
            out.push(data[c + l - 1 - j]);
            j = j + 1;
        }
        if l < 4 {
            assert(out@ =~= be_32_spec(data@, size as int));
            return out;
        }
        c = c + 4;
    }
    assert(out@ =~= be_32_spec(data@, size as int));
    out
}


/// "memory", the start of the name of the memory node.
pub open spec fn memory_name() -> Seq<u8> {
    seq![0x6du8, 0x65u8, 0x6du8, 0x6fu8, 0x72u8, 0x79u8]
}

/// "reg", the name of the property that holds a node's address ranges.
pub open spec fn reg_name() -> Seq<u8> {
    seq![0x72u8, 0x65u8, 0x67u8]
}

/// The big-endian eight-byte words that `d` holds.
pub open spec fn be64_words(d: Seq<u8>) -> Seq<u64> {
    Seq::new(d.len() / 8, |k: int| be64_at(d, 8 * k) as u64)
}

/// The memory layout of a tree with structure block `s` and strings `st`: the words of
/// the `reg` property of the first node whose name starts with "memory" (none when it
/// has no such property); `Some(None)` when there is no such node; `None` when the data
/// is malformed or the property's data is no whole number of words.
pub open spec fn mem_layout_spec(s: Seq<u8>, st: Seq<u8>) -> Option<Option<Seq<u64>>> {
    match find_from(s, memory_name(), 0) {
        None => None,
        Some(None) => Some(None),
        Some(Some(p)) => {
            let d = s.subrange(p, s.len() as int);
            match prop_from(d, st, reg_name(), 0) {
                None => None,
                Some(None) => Some(Some(seq![])),
                Some(Some((q, len))) => if len % 8 == 0 {
                    Some(Some(be64_words(d.subrange(q, q + len))))
                } else {
                    None
                },
            }
        },
    }
}

/// The words of `data`, read eight bytes at a time in big-endian order.
fn words_of(data: &[u8]) -> (r: Vec<u64>)
    requires
        data@.len() % 8 == 0,
    ensures
        r@ == be64_words(data@),
{
    let mut out: Vec<u64> = Vec::new();
    let len = data.len();
    let n = len / 8;
    let mut k: usize = 0;
    while k < n
        invariant
            n == data@.len() / 8,
            n == data.len() / 8,
            data@.len() % 8 == 0,
            k <= n,
            out@.len() == k,
            forall|j: int| 0 <= j < k ==> #[trigger] out@[j] == be64_at(data@, 8 * j) as u64,
        decreases n - k,
    {
        assert(8 * k + 8 <= data.len()) by (nonlinear_arith)
            requires
                k < n,
                n == data.len() / 8,
        ;
        out.push(read_be64(data, 8 * k));
        k = k + 1;
    }
    assert(out@ =~= be64_words(data@));
    out
}

pub proof fn lemma_prop_from(d: Seq<u8>, st: Seq<u8>, check: Seq<u8>, off: int)
    ensures
        prop_from(d, st, check, off) matches Some(Some((q, len))) ==> 0 <= q && 0 <= len && q + len <= d.len(),
    decreases d.len() - off,
{
    if off >= 0 && off + 4 <= d.len() && token_of(be32_at(d, off)) == Some(Token::Prop) && off + 12 <= d.len() {
        let len = be32_at(d, off + 4);
        let nameoff = be32_at(d, off + 8);
        if nameoff <= st.len() && !starts_with_at(st, nameoff, check) && off + 12 + align4(len) <= d.len() {
            lemma_prop_from(d, st, check, off + 12 + align4(len));
        }
    }
}

/// The memory layout that the tree gives: the words of the `reg` property of its
/// memory node; `Ok(None)` when it has no memory node.
pub fn mem_layout(fdt: &RawFDT) -> (r: Result<Option<Vec<u64>>, FdtError>)
    ensures
        match mem_layout_spec(fdt.nodes@, fdt.strings@) {
            None => r == Err::<Option<Vec<u64>>, FdtError>(FdtError::Malformed),
            Some(None) => r matches Ok(None),
            Some(Some(w)) => r matches Ok(Some(v)) && v@ == w,
        },
{
    proof {
        reveal_strlit("memory");
        vstd::string::is_ascii_spec_bytes("memory");
        assert("memory".spec_bytes() =~= memory_name());
        reveal_strlit("reg");
        vstd::string::is_ascii_spec_bytes("reg");
        assert("reg".spec_bytes() =~= reg_name());
    }
    let node = match fdt.find_node("memory") {
        Err(e) => {
            return Err(e);
        },
        Ok(None) => {
            return Ok(None);
        },
        Ok(Some(n)) => n,
    };
    match node.get_prop("reg") {
        Err(e) => Err(e),
        Ok(None) => {
            let v: Vec<u64> = Vec::new();
            proof {
                assert(v@ =~= seq![]);
            }
            Ok(Some(v))
        },
        Ok(Some(d)) => {
            proof {
                lemma_prop_from(node.data@, node.strings@, reg_name(), 0);
            }
            if d.len() % 8 != 0 {
                return Err(FdtError::Malformed);
            }
            Ok(Some(words_of(d)))
        },
    }
}

/// The memory layout's words are the `reg` data read eight bytes at a time, each group
/// a whole big-endian 64-bit number: the first byte of a group weighs 2^56, the last 1.
pub proof fn lemma_mem_layout_words(s: Seq<u8>, st: Seq<u8>, p: int, q: int, len: int)
    requires
        find_from(s, memory_name(), 0) == Some(Some(p)),
        prop_from(s.subrange(p, s.len() as int), st, reg_name(), 0) == Some(Some((q, len))),
        len % 8 == 0,
    ensures
        mem_layout_spec(s, st) matches Some(Some(w)) && w.len() == len / 8 && forall|k: int|
            0 <= k < len / 8 ==> {
                let r = s.subrange(p, s.len() as int).subrange(q, q + len);
                #[trigger] w[k] as int == r[8 * k + 0] * 0x100000000000000 + r[8 * k + 1] * 0x1000000000000 + r[8 * k + 2] * 0x10000000000 + r[8 * k + 3] * 0x100000000 + r[8 * k + 4] * 0x1000000 + r[8 * k + 5] * 0x10000 + r[8 * k + 6] * 0x100 + r[8 * k + 7] * 1
            },
{
    let r = s.subrange(p, s.len() as int).subrange(q, q + len);
    let w = be64_words(r);
    assert(mem_layout_spec(s, st) == Some(Some(w)));
    assert(r.len() == len) by {
        lemma_prop_from(s.subrange(p, s.len() as int), st, reg_name(), 0);
    }
    assert forall|k: int| 0 <= k < len / 8 implies #[trigger] w[k] as int == r[8 * k + 0] * 0x100000000000000 + r[8 * k + 1] * 0x1000000000000 + r[8 * k + 2] * 0x10000000000 + r[8 * k + 3] * 0x100000000 + r[8 * k + 4] * 0x1000000 + r[8 * k + 5] * 0x10000 + r[8 * k + 6] * 0x100 + r[8 * k + 7] * 1 by {
        assert(8 * k + 8 <= len);
        assert(w[k] == be64_at(r, 8 * k) as u64);
    }
}

} // verus!
