//! The output model: a tree of records, one for every element of the
//! compressed stream, each leaf with the bit range it was read from.
//!
//! Records that hold text or lists have a view, which holds the same fields
//! as sequences; records made of integers alone stand for themselves.
use vstd::prelude::*;

verus! {

/// A parsed field together with the half-open bit range `[start, end)` of the
/// input that it was read from.
#[derive(Clone, Copy, Debug, PartialEq, Eq)]
pub struct Value<T: Clone> {
    pub v: T,
    pub start: usize,
    pub end: usize,
}

/// The view of a [`Value`]: the view of the field, with the same bit range.
pub struct ValueView<V> {
    pub v: V,
    pub start: usize,
    pub end: usize,
}

impl<T: Clone + View> View for Value<T> {
    type V = ValueView<T::V>;

    open spec fn view(&self) -> ValueView<T::V> {
        ValueView { v: self.v@, start: self.start, end: self.end }
    }
}

/// One code of a canonical Huffman code list.
#[derive(Debug, PartialEq, Eq)]
pub struct HuffmanCode<T> {
    pub symbol: T,
    pub code: u16,
    pub len: Value<u8>,
    pub bin: String,
}

/// The view of a [`HuffmanCode`].
pub struct HuffmanCodeView<T> {
    pub symbol: T,
    pub code: u16,
    pub len: Value<u8>,
    pub bin: Seq<char>,
}

impl<T> View for HuffmanCode<T> {
    type V = HuffmanCodeView<T>;

    open spec fn view(&self) -> HuffmanCodeView<T> {
        HuffmanCodeView { symbol: self.symbol, code: self.code, len: self.len, bin: self.bin@ }
    }
}

/// A binary code tree. A node has exactly two children, the first for bit 0;
/// a leaf holds a symbol or is empty.
#[derive(Debug, PartialEq, Eq)]
pub enum HuffmanTree<T> {
    Node(Box<[HuffmanTree<T>; 2]>),
    Leaf(Option<T>),
}

/// One byte of plaintext, with its position in the plaintext.
#[derive(Clone, Debug, PartialEq, Eq)]
pub struct LiteralToken {
    pub plain_pos: usize,
    pub v: u8,
    pub c: char,
    pub hex: String,
}

/// The view of a [`LiteralToken`].
pub struct LiteralTokenView {
    pub plain_pos: usize,
    pub v: u8,
    pub c: char,
    pub hex: Seq<char>,
}

impl View for LiteralToken {
    type V = LiteralTokenView;

    open spec fn view(&self) -> LiteralTokenView {
        LiteralTokenView { plain_pos: self.plain_pos, v: self.v, c: self.c, hex: self.hex@ }
    }
}

/// The end of a block, with the position in the plaintext where it stands.
#[derive(Clone, Copy, Debug, PartialEq, Eq)]
pub struct EobToken {
    pub plain_pos: usize,
}

/// A copy from the window: the symbols and extra bits of its length and
/// distance, the values they stand for, and the bytes copied in hexadecimal.
#[derive(Clone, Debug, PartialEq, Eq)]
pub struct WindowToken {
    pub plain_pos: usize,
    pub length: Value<u16>,
    pub length_extra: Value<u8>,
    pub length_value: u16,
    pub distance: Value<u8>,
    pub distance_extra: Value<u16>,
    pub distance_value: u16,
    pub hex: String,
}

/// The view of a [`WindowToken`].
pub struct WindowTokenView {
    pub plain_pos: usize,
    pub length: Value<u16>,
    pub length_extra: Value<u8>,
    pub length_value: u16,
    pub distance: Value<u8>,
    pub distance_extra: Value<u16>,
    pub distance_value: u16,
    pub hex: Seq<char>,
}

impl View for WindowToken {
    type V = WindowTokenView;

    open spec fn view(&self) -> WindowTokenView {
        WindowTokenView {
            plain_pos: self.plain_pos,
            length: self.length,
            length_extra: self.length_extra,
            length_value: self.length_value,
            distance: self.distance,
            distance_extra: self.distance_extra,
            distance_value: self.distance_value,
            hex: self.hex@,
        }
    }
}

/// One element of a compressed block.
#[derive(Clone, Debug, PartialEq, Eq)]
pub enum Token {
    Literal(LiteralToken),
    Eob(EobToken),
    Window(WindowToken),
}

/// The view of a [`Token`].
pub enum TokenView {
    Literal(LiteralTokenView),
    Eob(EobToken),
    Window(WindowTokenView),
}

impl View for Token {
    type V = TokenView;

    open spec fn view(&self) -> TokenView {
        match *self {
            Token::Literal(t) => TokenView::Literal(t@),
            Token::Eob(t) => TokenView::Eob(t),
            Token::Window(t) => TokenView::Window(t@),
        }
    }
}

/// The views of the elements of a list, in order.
pub open spec fn views<T: View>(s: Seq<T>) -> Seq<T::V> {
    Seq::new(s.len(), |i: int| s[i]@)
}

/// The view of what a slot holds.
pub open spec fn opt_view<T: View>(o: Option<T>) -> Option<T::V> {
    match o {
        Some(x) => Some(x@),
        None => None,
    }
}

/// The elements of the list that a slot holds.
pub open spec fn opt_seq<T>(o: Option<Vec<T>>) -> Option<Seq<T>> {
    match o {
        Some(x) => Some(x@),
        None => None,
    }
}

/// The views of the elements of the list that a slot holds.
pub open spec fn opt_views<T: View>(o: Option<Vec<T>>) -> Option<Seq<T::V>> {
    match o {
        Some(x) => Some(views(x@)),
        None => None,
    }
}

/// The header of a block: whether it is the last, and its type.
#[derive(Clone, Copy, Debug, PartialEq, Eq)]
pub struct DeflateBlockHeader {
    pub bfinal: Option<Value<u8>>,
    pub btype: Option<Value<u8>>,
}

/// A stored block: its length, the field behind it, and its payload in hexadecimal.
#[derive(Debug, PartialEq, Eq)]
pub struct DeflateBlockStored {
    pub len: Option<Value<u16>>,
    pub nlen: Option<Value<u16>>,
    pub data: Option<Value<String>>,
}

/// The view of a [`DeflateBlockStored`].
pub struct DeflateBlockStoredView {
    pub len: Option<Value<u16>>,
    pub nlen: Option<Value<u16>>,
    pub data: Option<ValueView<Seq<char>>>,
}

impl View for DeflateBlockStored {
    type V = DeflateBlockStoredView;

    open spec fn view(&self) -> DeflateBlockStoredView {
        DeflateBlockStoredView { len: self.len, nlen: self.nlen, data: opt_view(self.data) }
    }
}

/// A block with fixed codes: its tokens, where they are kept.
#[derive(Debug, PartialEq, Eq)]
pub struct DeflateBlockFixed {
    pub tokens: Option<Vec<Value<Token>>>,
}

/// The view of a [`DeflateBlockFixed`].
pub struct DeflateBlockFixedView {
    pub tokens: Option<Seq<ValueView<TokenView>>>,
}

impl View for DeflateBlockFixed {
    type V = DeflateBlockFixedView;

    open spec fn view(&self) -> DeflateBlockFixedView {
        DeflateBlockFixedView { tokens: opt_views(self.tokens) }
    }
}

/// The code tables that a dynamic block carries, as they were read.
#[derive(Debug, PartialEq, Eq)]
pub struct DynamicHuffmanTable {
    pub hlit: Option<Value<u8>>,
    pub hdist: Option<Value<u8>>,
    pub hclen: Option<Value<u8>>,
    pub hclens: Option<Vec<Value<u8>>>,
    pub hclens_codes: Option<Vec<HuffmanCode<u8>>>,
    pub hclens_tree: Option<HuffmanTree<u8>>,
    pub hlits: Option<Vec<Value<u8>>>,
    pub hlits_codes: Option<Vec<HuffmanCode<u16>>>,
    pub hlits_tree: Option<HuffmanTree<u16>>,
    pub hdists: Option<Vec<Value<u8>>>,
    pub hdists_codes: Option<Vec<HuffmanCode<u8>>>,
    pub hdists_tree: Option<HuffmanTree<u8>>,
}

/// The view of a [`DynamicHuffmanTable`].
pub struct DynamicHuffmanTableView {
    pub hlit: Option<Value<u8>>,
    pub hdist: Option<Value<u8>>,
    pub hclen: Option<Value<u8>>,
    pub hclens: Option<Seq<Value<u8>>>,
    pub hclens_codes: Option<Seq<HuffmanCodeView<u8>>>,
    pub hclens_tree: Option<HuffmanTree<u8>>,
    pub hlits: Option<Seq<Value<u8>>>,
    pub hlits_codes: Option<Seq<HuffmanCodeView<u16>>>,
    pub hlits_tree: Option<HuffmanTree<u16>>,
    pub hdists: Option<Seq<Value<u8>>>,
    pub hdists_codes: Option<Seq<HuffmanCodeView<u8>>>,
    pub hdists_tree: Option<HuffmanTree<u8>>,
}

impl View for DynamicHuffmanTable {
    type V = DynamicHuffmanTableView;

    open spec fn view(&self) -> DynamicHuffmanTableView {
        DynamicHuffmanTableView {
            hlit: self.hlit,
            hdist: self.hdist,
            hclen: self.hclen,
            hclens: opt_seq(self.hclens),
            hclens_codes: opt_views(self.hclens_codes),
            hclens_tree: self.hclens_tree,
            hlits: opt_seq(self.hlits),
            hlits_codes: opt_views(self.hlits_codes),
            hlits_tree: self.hlits_tree,
            hdists: opt_seq(self.hdists),
            hdists_codes: opt_views(self.hdists_codes),
            hdists_tree: self.hdists_tree,
        }
    }
}

impl DynamicHuffmanTableView {
    /// The view of a table of which nothing has been read yet.
    pub open spec fn empty() -> DynamicHuffmanTableView {
        DynamicHuffmanTableView {
            hlit: None,
            hdist: None,
            hclen: None,
            hclens: None,
            hclens_codes: None,
            hclens_tree: None,
            hlits: None,
            hlits_codes: None,
            hlits_tree: None,
            hdists: None,
            hdists_codes: None,
            hdists_tree: None,
        }
    }
}

impl Default for DynamicHuffmanTable {
    fn default() -> (r: DynamicHuffmanTable)
        ensures
            r@ == DynamicHuffmanTableView::empty(),
    {
        DynamicHuffmanTable {
            hlit: None,
            hdist: None,
            hclen: None,
            hclens: None,
            hclens_codes: None,
            hclens_tree: None,
            hlits: None,
            hlits_codes: None,
            hlits_tree: None,
            hdists: None,
            hdists_codes: None,
            hdists_tree: None,
        }
    }
}

/// A block with dynamic codes: its code tables, and its tokens, where they are kept.
#[derive(Debug, PartialEq, Eq)]
pub struct DeflateBlockDynamic {
    pub dht: Option<DynamicHuffmanTable>,
    pub tokens: Option<Vec<Value<Token>>>,
}

/// The view of a [`DeflateBlockDynamic`].
pub struct DeflateBlockDynamicView {
    pub dht: Option<DynamicHuffmanTableView>,
    pub tokens: Option<Seq<ValueView<TokenView>>>,
}

impl View for DeflateBlockDynamic {
    type V = DeflateBlockDynamicView;

    open spec fn view(&self) -> DeflateBlockDynamicView {
        DeflateBlockDynamicView { dht: opt_view(self.dht), tokens: opt_views(self.tokens) }
    }
}

/// What a block holds besides its header, by block type.
#[derive(Debug, PartialEq, Eq)]
pub enum DeflateBlockExt {
    Stored(DeflateBlockStored),
    Fixed(DeflateBlockFixed),
    Dynamic(Box<DeflateBlockDynamic>),
}

/// The view of a [`DeflateBlockExt`].
pub enum DeflateBlockExtView {
    Stored(DeflateBlockStoredView),
    Fixed(DeflateBlockFixedView),
    Dynamic(DeflateBlockDynamicView),
}

impl View for DeflateBlockExt {
    type V = DeflateBlockExtView;

    open spec fn view(&self) -> DeflateBlockExtView {
        match *self {
            DeflateBlockExt::Stored(x) => DeflateBlockExtView::Stored(x@),
            DeflateBlockExt::Fixed(x) => DeflateBlockExtView::Fixed(x@),
            DeflateBlockExt::Dynamic(x) => DeflateBlockExtView::Dynamic(x@),
        }
    }
}

/// A block: its header, where it ends in the input, where it starts and
/// ends in the plaintext, and what it holds.
#[derive(Debug, PartialEq, Eq)]
pub struct DeflateBlock {
    pub header: DeflateBlockHeader,
    pub end: Option<usize>,
    pub plain_start: Option<usize>,
    pub plain_end: Option<usize>,
    pub ext: Option<DeflateBlockExt>,
}

/// The view of a [`DeflateBlock`].
pub struct DeflateBlockView {
    pub header: DeflateBlockHeader,
    pub end: Option<usize>,
    pub plain_start: Option<usize>,
    pub plain_end: Option<usize>,
    pub ext: Option<DeflateBlockExtView>,
}

impl View for DeflateBlock {
    type V = DeflateBlockView;

    open spec fn view(&self) -> DeflateBlockView {
        DeflateBlockView {
            header: self.header,
            end: self.end,
            plain_start: self.plain_start,
            plain_end: self.plain_end,
            ext: opt_view(self.ext),
        }
    }
}

/// A DEFLATE stream: its blocks in the order in which they were read.
#[derive(Debug, PartialEq, Eq)]
pub struct DeflateStream {
    pub blocks: Vec<DeflateBlock>,
}

/// The view of a [`DeflateStream`].
pub struct DeflateStreamView {
    pub blocks: Seq<DeflateBlockView>,
}

impl View for DeflateStream {
    type V = DeflateStreamView;

    open spec fn view(&self) -> DeflateStreamView {
        DeflateStreamView { blocks: views(self.blocks@) }
    }
}

impl Default for DeflateStream {
    fn default() -> (r: DeflateStream)
        ensures
            r@.blocks == Seq::<DeflateBlockView>::empty(),
    {
        let r = DeflateStream { blocks: Vec::new() };
        assert(r@.blocks =~= Seq::<DeflateBlockView>::empty());
        r
    }
}

/// A gzip stream: the fields of its header, the DEFLATE stream, and its trailer.
#[derive(Debug, PartialEq, Eq)]
pub struct GzipStream {
    pub magic: Value<u16>,
    pub method: Option<Value<u8>>,
    pub flags: Option<Value<u8>>,
    pub time: Option<Value<u32>>,
    pub xflags: Option<Value<u8>>,
    pub os: Option<Value<u8>>,
    pub name: Option<Value<String>>,
    pub deflate: Option<DeflateStream>,
    pub checksum: Option<Value<u32>>,
    pub len: Option<Value<u32>>,
}

/// The view of a [`GzipStream`].
pub struct GzipStreamView {
    pub magic: Value<u16>,
    pub method: Option<Value<u8>>,
    pub flags: Option<Value<u8>>,
    pub time: Option<Value<u32>>,
    pub xflags: Option<Value<u8>>,
    pub os: Option<Value<u8>>,
    pub name: Option<ValueView<Seq<char>>>,
    pub deflate: Option<DeflateStreamView>,
    pub checksum: Option<Value<u32>>,
    pub len: Option<Value<u32>>,
}

impl View for GzipStream {
    type V = GzipStreamView;

    open spec fn view(&self) -> GzipStreamView {
        GzipStreamView {
            magic: self.magic,
            method: self.method,
            flags: self.flags,
            time: self.time,
            xflags: self.xflags,
            os: self.os,
            name: opt_view(self.name),
            deflate: opt_view(self.deflate),
            checksum: self.checksum,
            len: self.len,
        }
    }
}

/// A zlib stream: the fields of its header, the DEFLATE stream, and its checksum.
#[derive(Debug, PartialEq, Eq)]
pub struct ZlibStream {
    pub cmf: Option<Value<u8>>,
    pub flg: Option<Value<u8>>,
    pub dictid: Option<Value<u32>>,
    pub deflate: Option<DeflateStream>,
    pub adler32: Option<Value<u32>>,
}

/// The view of a [`ZlibStream`].
pub struct ZlibStreamView {
    pub cmf: Option<Value<u8>>,
    pub flg: Option<Value<u8>>,
    pub dictid: Option<Value<u32>>,
    pub deflate: Option<DeflateStreamView>,
    pub adler32: Option<Value<u32>>,
}

impl View for ZlibStream {
    type V = ZlibStreamView;

    open spec fn view(&self) -> ZlibStreamView {
        ZlibStreamView {
            cmf: self.cmf,
            flg: self.flg,
            dictid: self.dictid,
            deflate: opt_view(self.deflate),
            adler32: self.adler32,
        }
    }
}

impl Default for ZlibStream {
    fn default() -> (r: ZlibStream)
        ensures
            r@ == (ZlibStreamView { cmf: None, flg: None, dictid: None, deflate: None, adler32: None }),
    {
        ZlibStream { cmf: None, flg: None, dictid: None, deflate: None, adler32: None }
    }
}

/// A compressed stream, by the framing that it was read with.
#[derive(Debug, PartialEq, Eq)]
pub enum CompressedStream {
    Raw(DeflateStream),
    Gzip(Box<GzipStream>),
    Dht(Box<DynamicHuffmanTable>),
    Zlib(ZlibStream),
}

/// The view of a [`CompressedStream`].
pub enum CompressedStreamView {
    Raw(DeflateStreamView),
    Gzip(GzipStreamView),
    Dht(DynamicHuffmanTableView),
    Zlib(ZlibStreamView),
}

impl View for CompressedStream {
    type V = CompressedStreamView;

    open spec fn view(&self) -> CompressedStreamView {
        match *self {
            CompressedStream::Raw(x) => CompressedStreamView::Raw(x@),
            CompressedStream::Gzip(x) => CompressedStreamView::Gzip(x@),
            CompressedStream::Dht(x) => CompressedStreamView::Dht(x@),
            CompressedStream::Zlib(x) => CompressedStreamView::Zlib(x@),
        }
    }
}

/// Appending an element to a list appends its view to the list's views.
pub proof fn lemma_views_push<T: View>(s: Seq<T>, x: T)
    ensures
        views(s.push(x)) == views(s).push(x@),
{
    assert(views(s.push(x)) =~= views(s).push(x@));
}

/// An empty list has no views.
pub proof fn lemma_views_empty<T: View>()
    ensures
        views(Seq::<T>::empty()) == Seq::<T::V>::empty(),
{
    assert(views(Seq::<T>::empty()) =~= Seq::<T::V>::empty());
}

} // verus!
