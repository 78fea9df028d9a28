//! The boundary to the Raptor forward-error-correction codec.
//!
//! The codec is opaque: the encoder turns a message into encoding symbols,
//! the decoder collects symbols until the block is fully specified and then
//! reconstructs the message. Everything else in this crate treats symbols as
//! plain byte strings.

use vstd::prelude::*;

verus! {

#[verifier::external_type_specification]
#[verifier::external_body]
pub struct ExSourceBlockDecoder(raptor_code::SourceBlockDecoder);

/// The encoding symbols the Raptor encoder derives from a message: a pure
/// function of the message bytes and the two symbol counts.
pub uninterp spec fn fec_symbols(data: Seq<u8>, max_source_symbols: usize, nb_repair: usize) -> Seq<Seq<u8>>;

/// Relies on raptor_code::encode_source_block: on success the returned
/// source-symbol count equals `max_source_symbols` (the partition of RFC 5053
/// cuts the message into exactly that many pieces) and there is one encoding
/// symbol per source and repair slot. The bounds keep the encoder away from
/// the inputs on which its tables and factorials are too small.
#[verifier::external_body]
pub(crate) fn encode_block(data: &[u8], max_source_symbols: usize, nb_repair: usize) -> (r: Option<
    (Vec<Vec<u8>>, u32),
>)
    requires
        1 <= max_source_symbols <= 255,
        nb_repair <= 255,
        data@.len() <= 65535,
    ensures
        r matches Some((symbols, count)) ==> {
            &&& count == max_source_symbols as u32
            &&& symbols.deep_view() == fec_symbols(data@, max_source_symbols, nb_repair)
            &&& symbols@.len() == max_source_symbols + nb_repair
            &&& forall|j: int|
                0 <= j < symbols@.len() ==> (#[trigger] symbols.deep_view()[j]).len()
                    <= data@.len()
        },
{
    raptor_code::encode_source_block(data, max_source_symbols, nb_repair).ok()
}

/// The longest piece the partition of a reconstruction of `len` bytes into
/// `k` pieces uses: the ceiling of `len / k`. Every slice the codec takes
/// from a decoded block is at most this long.
pub open spec fn piece_len(len: int, k: int) -> int {
    (len + k - 1) / k
}

/// One in-progress Raptor decode: the opaque decoder together with the
/// source-symbol count it was created from and the length of the shortest
/// symbol pushed so far. Both are kept beside the decoder so that the
/// bounds under which the codec is safe to call are visible to the
/// verifier; the module exposes no other way to build or feed one.
pub struct FecDecoder {
    inner: raptor_code::SourceBlockDecoder,
    nb_source_symbols: u32,
    min_symbol_len: usize,
}

impl FecDecoder {
    /// The source-symbol count this decoder was created from.
    pub closed spec fn source_symbols(self) -> u32 {
        self.nb_source_symbols
    }

    /// The length of the shortest symbol pushed so far (`usize::MAX` before
    /// the first push).
    pub closed spec fn shortest_symbol(self) -> usize {
        self.min_symbol_len
    }

    /// The bounds under which the codec's tables cover the block.
    pub open spec fn wf(self) -> bool {
        1 <= self.source_symbols() <= 255
    }

    /// Relies on raptor_code::SourceBlockDecoder::new, which sets up an empty
    /// decode matrix for `nb_source_symbols` source symbols.
    #[verifier::external_body]
    pub fn new(nb_source_symbols: u32) -> (r: FecDecoder)
        requires
            1 <= nb_source_symbols <= 255,
        ensures
            r.source_symbols() == nb_source_symbols,
            r.shortest_symbol() == usize::MAX,
            r.wf(),
    {
        FecDecoder {
            inner: raptor_code::SourceBlockDecoder::new(nb_source_symbols as usize),
            nb_source_symbols,
            min_symbol_len: usize::MAX,
        }
    }

    /// The source-symbol count, for callers sizing pieces.
    pub fn source_count(&self) -> (r: u32)
        ensures
            r == self.source_symbols(),
    {
        self.nb_source_symbols
    }

    /// The length of the shortest symbol pushed so far.
    pub fn min_len(&self) -> (r: usize)
        ensures
            r == self.shortest_symbol(),
    {
        self.min_symbol_len
    }

    /// Relies on raptor_code::SourceBlockDecoder::push_encoding_symbol, which
    /// adds one received symbol, keyed by its encoding symbol identifier, to
    /// the decode matrix. Nothing is promised of the decoder's progress.
    #[verifier::external_body]
    fn push_raw(&mut self, symbol: &[u8], esi: u32)
        requires
            old(self).wf(),
        ensures
            final(self).source_symbols() == old(self).source_symbols(),
            final(self).shortest_symbol() == old(self).shortest_symbol(),
    {
        self.inner.push_encoding_symbol(symbol, esi);
    }

    /// Feeds one received symbol to the decoder, remembering how short the
    /// shortest one was: the bound `decode` needs.
    pub fn push_symbol(&mut self, symbol: &[u8], esi: u32)
        requires
            old(self).wf(),
        ensures
            final(self).source_symbols() == old(self).source_symbols(),
            final(self).shortest_symbol() as int == (if symbol@.len() < old(
                self,
            ).shortest_symbol() {
                symbol@.len() as int
            } else {
                old(self).shortest_symbol() as int
            }),
            final(self).wf(),
    {
        if symbol.len() < self.min_symbol_len {
            self.min_symbol_len = symbol.len();
        }
        self.push_raw(symbol, esi);
    }

    /// Relies on raptor_code::SourceBlockDecoder::fully_specified, which
    /// reports whether the symbols seen so far pin the whole block down.
    #[verifier::external_body]
    pub fn fully_specified(&self) -> bool {
        self.inner.fully_specified()
    }

    /// Relies on raptor_code::SourceBlockDecoder::decode: it refuses the
    /// block until it is fully specified, and a reconstruction has exactly
    /// the requested length. The codec slices each recovered block to the
    /// partition piece sizes of the requested length, so it is called only
    /// when every symbol pushed is at least as long as the longest piece;
    /// the recovered blocks then carry at least that many bytes (block
    /// representations in the codec's on-the-fly elimination never shrink:
    /// its XOR helper grows its operand to the longer length) and the
    /// slicing stays in bounds.
    #[verifier::external_body]
    pub fn decode(&mut self, source_block_length: u16) -> (r: Option<Vec<u8>>)
        requires
            old(self).wf(),
            piece_len(
                source_block_length as int,
                old(self).source_symbols() as int,
            ) <= old(self).shortest_symbol(),
        ensures
            final(self).source_symbols() == old(self).source_symbols(),
            final(self).shortest_symbol() == old(self).shortest_symbol(),
            r matches Some(v) ==> v@.len() == source_block_length,
    {
        self.inner.decode(source_block_length as usize)
    }
}

} // verus!
