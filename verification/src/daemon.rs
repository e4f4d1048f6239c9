use vstd::prelude::*;

use crate::error::StreamError;
use crate::node::{create_collection, hash_views, manifest_of, NodeProfile};
use crate::ticket::{ticket_wire, TicketView};
use crate::transcode::TranscodeOptions;
use crate::types::MediaHash;
use crate::watcher::file_name_of;

verus! {

use vstd::utf8::encode_utf8;
use vstd::string::StrSliceExecFns;
use vstd::string::StringExecFns;

// ============================================================
// The daemon's decisions
//
// The daemon wires the index, the node and the watcher together:
// it opens the index, builds the node, spawns the watcher, seeds
// both stores with a recursive scan, and serves share requests.
// The event loops and the filesystem walks live with the caller;
// what stands here is every decision they apply: how a display
// name is derived, when a folder share is refused, and what
// ticket a share hands out.
// ============================================================

/// What the daemon is configured with: its data directory, the
/// watched roots, and the transcoding settings.
pub struct HostConfig {
    pub data_dir: String,
    pub watch_paths: Vec<String>,
    pub transcode_options: TranscodeOptions,
}

/// The display name a share derives from a path: the final path
/// component, or the given fallback where there is none.
pub fn display_name(path: &str, fallback: &str) -> (r: String)
    ensures
        file_name_of(path@).len() > 0 ==> r@ == file_name_of(path@),
        file_name_of(path@).len() == 0 ==> r@ == fallback@,
{
    let n = path.unicode_len();
    let mut start: usize = 0;
    let mut i: usize = 0;
    while i < n
        invariant
            n == path@.len(),
            start <= i <= n,
            file_name_of(path@.take(i as int)) == path@.subrange(start as int, i as int),
        decreases n - i,
    {
        let c = path.get_char(i);
        proof {
            assert(path@.take(i + 1).drop_last() =~= path@.take(i as int));
            assert(path@.take(i + 1).last() == path@[i as int]);
        }
        if c == '/' {
            start = i + 1;
            proof {
                assert(file_name_of(path@.take(i + 1)) =~= path@.subrange(i + 1, i + 1));
            }
        } else {
            proof {
                assert(file_name_of(path@.take(i + 1)) =~= path@.subrange(start as int, i + 1));
            }
        }
        i = i + 1;
    }
    proof {
        assert(path@.take(n as int) =~= path@);
    }
    if start == n {
        String::from_str(fallback)
    } else {
        let sub = path.substring_char(start, n);
        String::from_str(sub)
    }
}

/// The folder-share rule: a folder with no files cannot be shared
/// (an I/O error), and otherwise the share is the collection over
/// the files' hashes, in the order they were gathered.
pub fn build_folder_share(hashes: &Vec<MediaHash>) -> (r: Result<MediaHash, StreamError>)
    ensures
        hashes@.len() == 0 ==> (r matches Err(e) && e matches StreamError::Io(_)),
        hashes@.len() > 0 ==> (match r {
            Ok(h) => manifest_of(hash_views(hashes@)) is Some && h@
                == crate::watcher::hash_chars_of(manifest_of(hash_views(hashes@))->Some_0),
            Err(e) => manifest_of(hash_views(hashes@)) is None && (e matches
            StreamError::InvalidHash(_)),
        }),
{
    if hashes.len() == 0 {
        return Err(StreamError::Io(String::from_str("no files found in directory")));
    }
    create_collection(hashes)
}

/// The encoded ticket a share hands out: a ticket carrying the
/// node's identity and relay, the shared hash and the display
/// name, in the wire form that `ShareTicket::decode` inverts.
pub fn share_ticket_string(profile: &NodeProfile, hash: MediaHash, name: String) -> (r: String)
    ensures
        exists|t: TicketView|
            encode_utf8(r@) == #[trigger] ticket_wire(t) && t.node_id == profile.node_id@
                && t.relay_url == profile.relay_url@ && t.hash == hash@ && t.name == name@,
{
    let ghost h = hash@;
    let ghost nm = name@;
    let t = profile.generate_ticket(hash, name);
    let r = t.encode();
    proof {
        assert(encode_utf8(r@) == ticket_wire(t@) && t@.node_id == profile.node_id@
            && t@.relay_url == profile.relay_url@ && t@.hash == h && t@.name == nm);
    }
    r
}

} // verus!
