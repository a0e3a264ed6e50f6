use vstd::prelude::*;

verus! {

/// A fragment of an encoded MessagePack document. Float literals are handed
/// back as text: turning a numeric literal into IEEE-754 bits is the one step
/// this library leaves to its caller, which renders such a piece as the
/// `0xCB` tag followed by the eight big-endian bytes of the parsed double.
pub enum BinPiece {
    Bytes(Vec<u8>),
    FloatLit(Vec<char>),
}

/// The mathematical form of a `BinPiece`.
pub enum BinPieceS {
    Bytes(Seq<u8>),
    FloatLit(Seq<char>),
}

impl View for BinPiece {
    type V = BinPieceS;

    open spec fn view(&self) -> BinPieceS {
        match self {
            BinPiece::Bytes(v) => BinPieceS::Bytes(v@),
            BinPiece::FloatLit(l) => BinPieceS::FloatLit(l@),
        }
    }
}

/// A fragment of a decoded JSON text. Float values are handed back as the
/// bit patterns read from the wire: rendering them as decimal text is the
/// one step this library leaves to its caller.
pub enum TextPiece {
    Bytes(Vec<u8>),
    Float64(u64),
    Float32(u32),
}

/// The mathematical form of a `TextPiece`.
pub enum TextPieceS {
    Bytes(Seq<u8>),
    Float64(u64),
    Float32(u32),
}

impl View for TextPiece {
    type V = TextPieceS;

    open spec fn view(&self) -> TextPieceS {
        match self {
            TextPiece::Bytes(v) => TextPieceS::Bytes(v@),
            TextPiece::Float64(b) => TextPieceS::Float64(*b),
            TextPiece::Float32(b) => TextPieceS::Float32(*b),
        }
    }
}

/// The mathematical form of a list of encoded fragments.
pub open spec fn bview(ps: Seq<BinPiece>) -> Seq<BinPieceS> {
    ps.map_values(|p: BinPiece| p@)
}

/// The mathematical form of a list of decoded fragments.
pub open spec fn tview(ps: Seq<TextPiece>) -> Seq<TextPieceS> {
    ps.map_values(|p: TextPiece| p@)
}

} // verus!
