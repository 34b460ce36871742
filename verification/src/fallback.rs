//! The HTTP fallback as the library sees it: which URLs name it, and the
//! statistics it reports.
//!
//! The HTTP client that uploads bundles and queries the store lives at the
//! binary's edge.

use vstd::prelude::*;
use vstd::string::StrSliceExecFns;

verus! {

/// Aggregate statistics reported by the fallback store.
#[derive(Debug, Default)]
pub struct FallbackStats {
    pub total_files: usize,
    pub total_bytes: u64,
}

/// The URL names the plain or secure HTTP scheme.
pub open spec fn is_http_url_spec(s: Seq<char>) -> bool {
    ||| s.len() >= 7 && s.subrange(0, 7) == "http://"@
    ||| s.len() >= 8 && s.subrange(0, 8) == "https://"@
}

/// Whether a URL addresses the HTTP fallback rather than a peer: it
/// starts with `http://` or `https://`.
pub fn is_http_url(url: &str) -> (r: bool)
    ensures
        r == is_http_url_spec(url@),
{
    proof {
        reveal_strlit("http://");
        reveal_strlit("https://");
    }
    let n = url.unicode_len();
    let http = n >= 7 && url.get_char(0) == 'h' && url.get_char(1) == 't' && url.get_char(2) == 't'
        && url.get_char(3) == 'p' && url.get_char(4) == ':' && url.get_char(5) == '/'
        && url.get_char(6) == '/';
    let https = n >= 8 && url.get_char(0) == 'h' && url.get_char(1) == 't' && url.get_char(2)
        == 't' && url.get_char(3) == 'p' && url.get_char(4) == 's' && url.get_char(5) == ':'
        && url.get_char(6) == '/' && url.get_char(7) == '/';
    proof {
        if http {
            assert(url@.subrange(0, 7) =~= "http://"@);
        }
        if https {
            assert(url@.subrange(0, 8) =~= "https://"@);
        }
        if !http && url@.len() >= 7 && url@.subrange(0, 7) == "http://"@ {
            assert(url@[0] == 'h') by { assert(url@.subrange(0, 7)[0] == 'h'); }
            assert(url@[1] == 't') by { assert(url@.subrange(0, 7)[1] == 't'); }
            assert(url@[2] == 't') by { assert(url@.subrange(0, 7)[2] == 't'); }
            assert(url@[3] == 'p') by { assert(url@.subrange(0, 7)[3] == 'p'); }
            assert(url@[4] == ':') by { assert(url@.subrange(0, 7)[4] == ':'); }
            assert(url@[5] == '/') by { assert(url@.subrange(0, 7)[5] == '/'); }
            assert(url@[6] == '/') by { assert(url@.subrange(0, 7)[6] == '/'); }
            assert(false);
        }
        if !https && url@.len() >= 8 && url@.subrange(0, 8) == "https://"@ {
            assert(url@[0] == 'h') by { assert(url@.subrange(0, 8)[0] == 'h'); }
            assert(url@[1] == 't') by { assert(url@.subrange(0, 8)[1] == 't'); }
            assert(url@[2] == 't') by { assert(url@.subrange(0, 8)[2] == 't'); }
            assert(url@[3] == 'p') by { assert(url@.subrange(0, 8)[3] == 'p'); }
            assert(url@[4] == 's') by { assert(url@.subrange(0, 8)[4] == 's'); }
            assert(url@[5] == ':') by { assert(url@.subrange(0, 8)[5] == ':'); }
            assert(url@[6] == '/') by { assert(url@.subrange(0, 8)[6] == '/'); }
            assert(url@[7] == '/') by { assert(url@.subrange(0, 8)[7] == '/'); }
            assert(false);
        }
    }
    http || https
}

} // verus!
