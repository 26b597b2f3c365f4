//! Gzip-wrapped profiles.
use std::collections::HashMap;
use vstd::prelude::*;
use crate::pprof;
use crate::profile::{HeapProfile, Weight};
use crate::symbols;
use crate::symbols::{FrameView, ResolvedFrame, SymbolCache};
use crate::wire;

verus! {

/// The stream that [`flate2::write::GzEncoder`] makes of a payload at the
/// default compression level.
pub uninterp spec fn gzip_stream(payload: Seq<u8>) -> Seq<u8>;

/// What [`flate2::read::GzDecoder`] reads from a stream to its end, if it
/// reads it without an error.
pub uninterp spec fn gunzipped(stream: Seq<u8>) -> Option<Seq<u8>>;

/// [`flate2::write::GzEncoder`] turns a payload into a gzip stream. The
/// stream depends on the payload alone; it starts with the gzip magic number,
/// it is no shorter than its header and footer, and decoding it gives the
/// payload back.
#[verifier::external_body]
fn gzip(payload: &[u8]) -> (stream: Vec<u8>)
    ensures
        stream@ == gzip_stream(payload@),
        stream.len() >= 18,
        stream@[0] == 0x1f,
        stream@[1] == 0x8b,
        gunzipped(stream@) == Some(payload@),
{
    let mut encoder = flate2::write::GzEncoder::new(Vec::new(), flate2::Compression::default());
    std::io::Write::write_all(&mut encoder, payload).expect("writing to memory");
    encoder.finish().expect("writing to memory")
}

/// [`flate2::read::GzDecoder`] reads the payload of the first member of a
/// gzip stream, or fails where the stream is not one. What it reads depends
/// on the stream alone.
#[verifier::external_body]
fn gunzip(stream: &[u8]) -> (payload: Option<Vec<u8>>)
    ensures
        match payload {
            Some(p) => gunzipped(stream@) == Some(p@),
            None => gunzipped(stream@) is None,
        },
{
    let mut payload = Vec::new();
    let mut decoder = flate2::read::GzDecoder::new(stream);
    match std::io::Read::read_to_end(&mut decoder, &mut payload) {
        Ok(_) => Some(payload),
        Err(_) => None,
    }
}

/// The message of a gzip-wrapped profile, if the stream can be read.
pub fn read_pprof_gz(stream: &[u8]) -> (message: Option<Vec<u8>>)
    ensures
        match message {
            Some(m) => gunzipped(stream@) == Some(m@),
            None => gunzipped(stream@) is None,
        },
{
    gunzip(stream)
}

/// A gzip stream for `message` was appended: it starts with the gzip magic
/// number and decodes to the message.
pub open spec fn appends_gz(before: Seq<u8>, after: Seq<u8>, message: Seq<u8>) -> bool {
    let stream = gzip_stream(message);
    &&& after == before + stream
    &&& stream.len() >= 18
    &&& stream[0] == 0x1f
    &&& stream[1] == 0x8b
    &&& gunzipped(stream) == Some(message)
}

impl HeapProfile {
    /// Append the live heap as a gzip-wrapped pprof profile, with code
    /// addresses for function names.
    pub fn write_pprof_gz(&self, out: &mut Vec<u8>, weight: Weight, bias: Option<usize>)
        ensures
            appends_gz(
                old(out)@,
                final(out)@,
                wire::message_bytes(pprof::inuse_document(self@, bias, Map::empty())),
            ),
    {
        let mut message: Vec<u8> = Vec::new();
        self.write_pprof(&mut message, weight, bias);
        assert(message@ =~= wire::message_bytes(pprof::inuse_document(self@, bias, Map::empty())));
        let mut stream = gzip(message.as_slice());
        out.append(&mut stream);
    }

    /// Append the live heap as a gzip-wrapped pprof profile, with function
    /// names, files and lines wherever the running program knows them.
    pub fn write_pprof_gz_symbolized(
        &self,
        out: &mut Vec<u8>,
        weight: Weight,
        bias: Option<usize>,
        cache: &mut SymbolCache,
    )
        ensures
            symbols::extends(old(cache)@, final(cache)@, symbols::frames_of(self@.samples)),
            exists|resolved: Map<usize, FrameView>|
                {
                    &&& #[trigger] symbols::answers(
                        resolved,
                        symbols::frames_of(self@.samples),
                        final(cache)@,
                    )
                    &&& appends_gz(
                        old(out)@,
                        final(out)@,
                        wire::message_bytes(pprof::inuse_document(self@, bias, resolved)),
                    )
                },
    {
        let resolved = self.symbolize(cache);
        let mut message: Vec<u8> = Vec::new();
        self.write_pprof_resolved(&mut message, weight, bias, &resolved);
        assert(message@ =~= wire::message_bytes(
            pprof::inuse_document(self@, bias, symbols::frame_views(resolved@)),
        ));
        let mut stream = gzip(message.as_slice());
        out.append(&mut stream);
    }
}

/// What is appended is a gzip stream, and reading it gives the message that is
/// written without compression.
pub proof fn streams_hold_the_plain_message(
    p: &HeapProfile,
    out: &mut Vec<u8>,
    plain: &mut Vec<u8>,
    weight: Weight,
    bias: Option<usize>,
    stream: &[u8],
    message: Option<Vec<u8>>,
)
    requires
        call_ensures(HeapProfile::write_pprof_gz, (p, out, weight, bias), ()),
        call_ensures(HeapProfile::write_pprof, (p, plain, weight, bias), ()),
        call_ensures(read_pprof_gz, (stream,), message),
        old(plain)@.len() == 0,
        final(out)@ == old(out)@ + stream@,
    ensures
        old(out)@.is_prefix_of(final(out)@),
        stream@.len() >= 18,
        stream@[0] == 0x1f,
        stream@[1] == 0x8b,
        message is Some,
        message->0@ == final(plain)@,
{
    let doc = wire::message_bytes(pprof::inuse_document(p@, bias, Map::empty()));
    let start = old(out)@;
    assert(appends_gz(start, final(out)@, doc));
    assert(old(plain)@ + doc =~= doc);
    assert((start + stream@).skip(start.len() as int) =~= stream@);
    assert((start + gzip_stream(doc)).skip(start.len() as int) =~= gzip_stream(doc));
    assert((start + stream@).subrange(0, start.len() as int) =~= start);
}

/// Reading a stream with names that were looked up gives the message that is
/// written, without compression, with the frames that the cache keeps.
pub proof fn looked_up_streams_hold_the_plain_message(
    p: &HeapProfile,
    out: &mut Vec<u8>,
    weight: Weight,
    bias: Option<usize>,
    cache: &mut SymbolCache,
    resolved: &HashMap<usize, ResolvedFrame>,
    plain: &mut Vec<u8>,
    stream: &[u8],
    message: Option<Vec<u8>>,
)
    requires
        call_ensures(HeapProfile::write_pprof_gz_symbolized, (p, out, weight, bias, cache), ()),
        call_ensures(HeapProfile::write_pprof_resolved, (p, plain, weight, bias, resolved), ()),
        symbols::answers(
            symbols::frame_views(resolved@),
            symbols::frames_of(p@.samples),
            final(cache)@,
        ),
        call_ensures(read_pprof_gz, (stream,), message),
        old(plain)@.len() == 0,
        final(out)@ == old(out)@ + stream@,
    ensures
        stream@.len() >= 18,
        stream@[0] == 0x1f,
        stream@[1] == 0x8b,
        message is Some,
        message->0@ == final(plain)@,
{
    let asked = symbols::frames_of(p@.samples);
    let start = old(out)@;
    let known = choose|known: Map<usize, FrameView>|
        {
            &&& #[trigger] symbols::answers(known, asked, final(cache)@)
            &&& appends_gz(
                start,
                final(out)@,
                wire::message_bytes(pprof::inuse_document(p@, bias, known)),
            )
        };
    symbols::answers_are_unique(symbols::frame_views(resolved@), known, asked, final(cache)@);
    let doc = wire::message_bytes(pprof::inuse_document(p@, bias, known));
    assert(old(plain)@ + doc =~= doc);
    assert((start + stream@).skip(start.len() as int) =~= stream@);
    assert((start + gzip_stream(doc)).skip(start.len() as int) =~= gzip_stream(doc));
}

} // verus!
