//! The computable part of the blob-store HTTP surface: request routing over
//! path bytes, and the descriptor a successful upload answers with. The
//! network and header handling around these stays outside the library.

use vstd::prelude::*;

verus! {

/// What a successful blob upload answers with.
#[derive(Debug, Clone)]
pub struct BlobDescriptor {
    pub url: String,
    pub sha256: String,
    pub size: u64,
    pub uploaded: u64,
}

/// Where a blob request is routed by its path.
#[derive(Debug, PartialEq, Eq, Structural, Clone, Copy)]
pub enum Route {
    Hash,
    Upload,
    List,
    Mirror,
    NotBlossom,
}

pub open spec fn is_hex_digit(b: u8) -> bool {
    (48 <= b <= 57) || (97 <= b <= 102) || (65 <= b <= 70)
}

/// `n` hexadecimal digits starting at `start`.
pub open spec fn hex_run(p: Seq<u8>, start: int, n: int) -> bool {
    forall|i: int| start <= i < start + n ==> is_hex_digit(#[trigger] p[i])
}

pub open spec fn upload_path() -> Seq<u8> {
    seq![47u8, 117u8, 112u8, 108u8, 111u8, 97u8, 100u8]
}

pub open spec fn mirror_path() -> Seq<u8> {
    seq![47u8, 109u8, 105u8, 114u8, 114u8, 111u8, 114u8]
}

pub open spec fn list_prefix() -> Seq<u8> {
    seq![47u8, 108u8, 105u8, 115u8, 116u8, 47u8]
}

/// Path routing: `/` followed by 64 hex digits is a blob fetch; `/upload`
/// and `/mirror` are exact; `/list/` followed by 64 hex digits lists an
/// author; anything else is not a blob request.
pub open spec fn route_spec(p: Seq<u8>) -> Route {
    if p.len() >= 65 && p[0] == 47 && hex_run(p, 1, 64) {
        Route::Hash
    } else if p == upload_path() {
        Route::Upload
    } else if p.len() >= 70 && p.take(6) == list_prefix() && hex_run(p, 6, 64) {
        Route::List
    } else if p == mirror_path() {
        Route::Mirror
    } else {
        Route::NotBlossom
    }
}

fn is_hex_digit_at(p: &Vec<u8>, i: usize) -> (r: bool)
    requires
        i < p@.len(),
    ensures
        r == is_hex_digit(p@[i as int]),
{
    let b = p[i];
    (48 <= b && b <= 57) || (97 <= b && b <= 102) || (65 <= b && b <= 70)
}

fn check_hex_run(p: &Vec<u8>, start: usize, n: usize) -> (r: bool)
    requires
        start + n <= p@.len(),
    ensures
        r == hex_run(p@, start as int, n as int),
{
    let m = p.len();
    let mut i: usize = 0;
    while i < n
        invariant
            i <= n,
            m == p@.len(),
            start + n <= m,
            forall|k: int| start <= k < start + i ==> is_hex_digit(#[trigger] p@[k]),
        decreases n - i,
    {
        if !is_hex_digit_at(p, start + i) {
            return false;
        }
        i = i + 1;
    }
    true
}

/// Routes a request path, as bytes.
pub fn classify_route(p: &Vec<u8>) -> (r: Route)
    ensures
        r == route_spec(p@),
{
    if p.len() >= 65 && p[0] == 47 && check_hex_run(p, 1, 64) {
        return Route::Hash;
    }
    let upload: Vec<u8> = vec![47u8, 117, 112, 108, 111, 97, 100];
    proof {
        assert(upload@ =~= upload_path());
    }
    if crate::bytes::bytes_eq(p, &upload) {
        return Route::Upload;
    }
    if p.len() >= 70 {
        let prefix = crate::codec::copy_range(p, 0, 6);
        let list: Vec<u8> = vec![47u8, 108, 105, 115, 116, 47];
        proof {
            assert(list@ =~= list_prefix());
            assert(p@.take(6) =~= p@.subrange(0, 6));
        }
        if crate::bytes::bytes_eq(&prefix, &list) && check_hex_run(p, 6, 64) {
            return Route::List;
        }
    }
    let mirror: Vec<u8> = vec![47u8, 109, 105, 114, 114, 111, 114];
    proof {
        assert(mirror@ =~= mirror_path());
        assert(p@.len() < 70 ==> !(p@.len() >= 70 && p@.take(6) == list_prefix() && hex_run(
            p@,
            6,
            64,
        )));
    }
    if crate::bytes::bytes_eq(p, &mirror) {
        return Route::Mirror;
    }
    Route::NotBlossom
}

} // verus!
