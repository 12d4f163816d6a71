//! The fixed markers of a transcript and the size of a chunk.

use vstd::prelude::*;
use vstd::string::*;

verus! {

/// How many message groups lie between two page boundaries.
pub const CHUNK_SIZE: usize = 100;

/// Opens the log; everything up to its end is the preamble of every page.
pub const CHAT_LOG: &'static str = "<div class=\"chatlog\">";

/// Stands in front of every message group.
pub const MESSAGE_CONTAINER: &'static str = "<div class=\"chatlog__message-group\">";

/// Opens the closing boilerplate, which no page takes over.
pub const POSTAMBLE: &'static str = "<div class=\"postamble\">";

/// Closes every page.
pub const CLOSING_TAGS: &'static str = "</body></html>";

/// The bytes of the marker that opens the log.
pub open spec fn chat_log() -> Seq<u8> {
    CHAT_LOG.spec_bytes()
}

/// The bytes of the marker in front of a message group.
pub open spec fn message_container() -> Seq<u8> {
    MESSAGE_CONTAINER.spec_bytes()
}

/// The bytes of the marker that opens the closing boilerplate.
pub open spec fn postamble() -> Seq<u8> {
    POSTAMBLE.spec_bytes()
}

/// The byte `<`.
pub open spec fn tag_open() -> u8 {
    60u8
}

/// `pat` begins with `<` and holds no other `<`.
pub open spec fn opens_once(pat: Seq<u8>) -> bool {
    &&& pat.len() > 0
    &&& pat[0] == tag_open()
    &&& forall|j: int| 1 <= j < pat.len() ==> #[trigger] pat[j] != tag_open()
}

/// The length of each marker, and that each begins with its only `<`.
pub proof fn lemma_marker_shapes()
    ensures
        chat_log().len() == 21,
        message_container().len() == 36,
        postamble().len() == 23,
        opens_once(chat_log()),
        opens_once(message_container()),
        opens_once(postamble()),
{
    reveal_strlit("<div class=\"chatlog\">");
    reveal_strlit("<div class=\"chatlog__message-group\">");
    reveal_strlit("<div class=\"postamble\">");
    assert(is_ascii(CHAT_LOG));
    assert(is_ascii(MESSAGE_CONTAINER));
    assert(is_ascii(POSTAMBLE));
    is_ascii_spec_bytes(CHAT_LOG);
    is_ascii_spec_bytes(MESSAGE_CONTAINER);
    is_ascii_spec_bytes(POSTAMBLE);
}

/// A marker cannot begin inside another one: where `first` stands at `a` and
/// `second` at a later index `b`, `second` begins at or after the end of `first`.
pub proof fn lemma_markers_apart(doc: Seq<u8>, first: Seq<u8>, a: int, second: Seq<u8>, b: int)
    requires
        opens_once(first),
        second.len() > 0,
        second[0] == tag_open(),
        crate::search::matches_at(doc, first, a),
        crate::search::matches_at(doc, second, b),
        a < b,
    ensures
        a + first.len() <= b,
{
    if b < a + first.len() {
        assert(doc.subrange(a, a + first.len())[b - a] == doc[b]);
        assert(doc.subrange(b, b + second.len())[0] == doc[b]);
        assert(first[b - a] != tag_open());
    }
}

} // verus!
