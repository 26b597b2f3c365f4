//! The allocator's statistics as text.
use vstd::prelude::*;
use crate::allocator::SnMalloc;
use crate::text::string_from_utf8;

verus! {

/// The allocator's answers to a request for its statistics: how many bytes it
/// wants to write, the buffer that it was handed, and how many bytes it says
/// it wrote.
#[derive(Debug)]
pub struct StatsReply {
    pub needed: usize,
    pub buffer: Vec<u8>,
    pub reported: usize,
}

/// The bytes that count: at most as many as were asked for.
pub open spec fn written(reply: StatsReply) -> nat {
    if reply.reported <= reply.needed {
        reply.reported as nat
    } else {
        reply.needed as nat
    }
}

/// The buffer holds all bytes that count.
pub open spec fn holds(reply: StatsReply) -> bool {
    written(reply) <= reply.buffer@.len()
}

/// The text of a reply.
pub open spec fn dump_bytes(reply: StatsReply) -> Seq<u8> {
    reply.buffer@.take(written(reply) as int)
}

/// The size of the buffer to hand over for a text of `needed` bytes: room for
/// a final zero byte, or none at all for an empty text.
pub fn buffer_size(needed: usize) -> (size: Option<usize>)
    requires
        needed < usize::MAX,
    ensures
        needed == 0 ==> size is None,
        needed > 0 ==> size == Some((needed + 1) as usize),
{
    if needed == 0 {
        None
    } else {
        Some(needed + 1)
    }
}

/// Append the statistics to `out`.
pub fn write_to(reply: &StatsReply, out: &mut Vec<u8>)
    requires
        holds(*reply),
    ensures
        final(out)@ == old(out)@ + dump_bytes(*reply),
{
    let n: usize = if reply.reported > reply.needed {
        reply.needed
    } else {
        reply.reported
    };
    let ghost start = out@;
    assert(reply.buffer@.take(0) =~= Seq::empty());
    for i in 0..n
        invariant
            n == written(*reply),
            holds(*reply),
            out@ == start + reply.buffer@.take(i as int),
    {
        out.push(reply.buffer[i]);
        assert(reply.buffer@.take(i + 1) =~= reply.buffer@.take(i as int).push(
            reply.buffer@[i as int],
        ));
        assert(out@ =~= start + reply.buffer@.take(i + 1));
    }
}

impl SnMalloc {
    /// Append the allocator's statistics to `out`.
    pub fn dump_stats(&self, reply: &StatsReply, out: &mut Vec<u8>)
        requires
            holds(*reply),
        ensures
            final(out)@ == old(out)@ + dump_bytes(*reply),
    {
        write_to(reply, out)
    }
}

/// The string that [`String::from_utf8_lossy`] makes of bytes.
pub uninterp spec fn lossy_text(bytes: Seq<u8>) -> Seq<char>;

/// [`String::from_utf8_lossy`] decodes what is valid UTF-8 and puts
/// replacement characters for the rest. The string depends on the bytes
/// alone.
#[verifier::external_body]
fn string_from_utf8_lossy(bytes: &Vec<u8>) -> (s: String)
    ensures
        s@ == lossy_text(bytes@),
{
    String::from_utf8_lossy(bytes).into_owned()
}

/// The statistics as a string.
pub fn to_string(reply: &StatsReply) -> (s: String)
    requires
        holds(*reply),
    ensures
        s@ == (if vstd::utf8::valid_utf8(dump_bytes(*reply)) {
            vstd::utf8::decode_utf8(dump_bytes(*reply))
        } else {
            lossy_text(dump_bytes(*reply))
        }),
{
    let mut bytes: Vec<u8> = Vec::new();
    write_to(reply, &mut bytes);
    assert(bytes@ =~= dump_bytes(*reply));
    match string_from_utf8(bytes) {
        Ok(s) => s,
        Err(b) => string_from_utf8_lossy(&b),
    }
}

/// Where there is nothing to report, nothing is written.
pub proof fn nothing_needed_writes_nothing(reply: StatsReply)
    requires
        reply.needed == 0,
    ensures
        holds(reply),
        dump_bytes(reply).len() == 0,
{
}

/// What is written is added behind what was there: the first bytes of the
/// buffer, as many as were reported but no more than were asked for.
pub proof fn the_first_bytes_are_written(
    a: &SnMalloc,
    reply: &StatsReply,
    out: &mut Vec<u8>,
    same: &mut Vec<u8>,
)
    requires
        call_ensures(write_to, (reply, out), ()),
        call_ensures(SnMalloc::dump_stats, (a, reply, same), ()),
        reply.reported <= reply.buffer@.len() || reply.needed <= reply.buffer@.len(),
        old(same)@ == old(out)@,
    ensures
        final(same)@ == final(out)@,
        old(out)@.is_prefix_of(final(out)@),
        final(out)@.len() - old(out)@.len() == (if reply.reported < reply.needed {
            reply.reported as nat
        } else {
            reply.needed as nat
        }),
        final(out)@.skip(old(out)@.len() as int).is_prefix_of(reply.buffer@),
{
    let start = old(out)@;
    let part = dump_bytes(*reply);
    assert((start + part).skip(start.len() as int) =~= part);
    assert((start + part).subrange(0, start.len() as int) =~= start);
    assert(part =~= reply.buffer@.subrange(0, part.len() as int));
}

/// Text that was written as UTF-8 is given back as it was, and the string
/// depends on the bytes that count alone.
pub proof fn texts_are_given_back(a: &StatsReply, b: &StatsReply, s: String, t: String)
    requires
        holds(*a),
        holds(*b),
        call_ensures(to_string, (a,), s),
        call_ensures(to_string, (b,), t),
    ensures
        dump_bytes(*a) == dump_bytes(*b) ==> s@ == t@,
        vstd::utf8::valid_utf8(dump_bytes(*a)) ==> vstd::utf8::encode_utf8(s@) == dump_bytes(*a),
{
    if vstd::utf8::valid_utf8(dump_bytes(*a)) {
        vstd::utf8::decode_utf8_encode_utf8(dump_bytes(*a));
    }
}

/// A buffer has room for one byte more than the text, and an empty text needs
/// none.
pub proof fn buffers_have_room(needed: usize, size: Option<usize>)
    requires
        needed < usize::MAX,
        call_ensures(buffer_size, (needed,), size),
    ensures
        size is Some <==> needed > 0,
        size is Some ==> size->0 == needed + 1,
{
}

} // verus!
