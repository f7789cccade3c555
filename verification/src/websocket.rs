//! Live updates from the BeatSaver websockets.

pub mod mapactivity;
pub mod voteactivity;

use vstd::prelude::*;

verus! {

/// The BeatSaver websocket server; the map socket is at `/maps`, the vote socket at `/votes`.
pub const BASE_WS_URL: &'static str = "wss://ws.beatsaver.com";

/// How long to wait before connecting again after a socket closed or could not connect, in seconds.
pub const RECONNECT_DELAY_SECS: u64 = 15;

/// The start of the keep-alive frames that the websockets send between messages.
pub open spec fn ping_prefix() -> Seq<char> {
    seq!['[', 'p', 'i', 'n', 'g']
}

/// Whether a text frame that is not a known message is a keep-alive ping,
/// that is, starts with `[ping`.
pub fn is_ping(text: &str) -> (r: bool)
    ensures
        r == (text@.len() >= 5 && text@.take(5) == ping_prefix()),
{
    let len = text.unicode_len();
    if len < 5 {
        return false;
    }
    let r = text.get_char(0) == '[' && text.get_char(1) == 'p' && text.get_char(2) == 'i'
        && text.get_char(3) == 'n' && text.get_char(4) == 'g';
    proof {
        if r {
            assert(text@.take(5) =~= ping_prefix());
        } else {
            if text@.take(5) == ping_prefix() {
                assert(text@.take(5)[0] == '[');
                assert(text@.take(5)[1] == 'p');
                assert(text@.take(5)[2] == 'i');
                assert(text@.take(5)[3] == 'n');
                assert(text@.take(5)[4] == 'g');
            }
        }
    }
    r
}

} // verus!
