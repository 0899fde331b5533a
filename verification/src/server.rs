//! The request and response shapes of the browser interface, and the
//! pure parts of assembling them. Routing, JSON (de)serialisation and
//! the socket live with the caller, which converts between these
//! bare types and its own serialisable copies.

use vstd::prelude::*;

use crate::config::Config;
use crate::order::str_eq;

verus! {

/// What the running server holds: the loaded configuration and the
/// command-line overrides.
pub struct AppState {
    pub config: Config,
    pub threshold_override: Option<u32>,
    pub grid_size_override: Option<u32>,
}

/// A scan request: paths to scan and per-request settings.
pub struct ScanRequest {
    pub paths: Vec<String>,
    pub threshold: Option<u32>,
    pub grid_size: Option<u32>,
    pub include_hidden: Option<bool>,
    pub debug: Option<bool>,
    pub skip_validation: Option<bool>,
}

/// One file in a response, with its current existence.
pub struct FileInfo {
    pub path: String,
    pub exists: bool,
}

/// The outcome of a scan: the duplicate groups found.
pub struct ScanResponse {
    pub success: bool,
    pub message: String,
    pub duplicate_count: usize,
    pub duplicates: Vec<Vec<FileInfo>>,
}

/// A query for cached matches, with optional pagination.
pub struct MatchesQuery {
    pub threshold: Option<u32>,
    pub count: Option<usize>,
    pub offset: Option<usize>,
}

/// The cached duplicate groups for a threshold.
pub struct MatchesResponse {
    pub success: bool,
    pub duplicates: Vec<Vec<FileInfo>>,
    pub threshold: u32,
}

/// The effective configuration, as reported to the browser.
pub struct ConfigResponse {
    pub grid_size: u32,
    pub threshold: u32,
    pub database_path: Option<String>,
}

/// A request to check which of some paths still exist.
pub struct CheckFilesRequest {
    pub paths: Vec<String>,
}

/// The per-path existence answers.
pub struct CheckFilesResponse {
    pub files: Vec<FileInfo>,
}

/// A request to delete one file.
pub struct DeleteFileRequest {
    pub path: String,
}

/// Whether the deletion succeeded, with a description.
pub struct DeleteFileResponse {
    pub success: bool,
    pub message: String,
}

/// The configuration answer for a state: each override wins over the
/// configured value.
pub fn config_response(state: &AppState) -> (r: ConfigResponse)
    ensures
        r.grid_size == (match state.grid_size_override {
            Some(v) => v,
            None => state.config.grid_size,
        }),
        r.threshold == (match state.threshold_override {
            Some(v) => v,
            None => state.config.threshold,
        }),
        r.database_path is Some <==> state.config.database_path is Some,
        r.database_path is Some ==> r.database_path->0@ == state.config.database_path->0@,
{
    ConfigResponse {
        grid_size: state.config.effective_grid_size(state.grid_size_override),
        threshold: state.config.effective_threshold(state.threshold_override),
        database_path: match &state.config.database_path {
            Some(p) => Some(p.clone()),
            None => None,
        },
    }
}

/// Pairs every path of a group list with its existence flag, group
/// by group and in order; the flags come from the caller's existence
/// checks and must have the same shape.
pub fn build_file_infos(groups: &Vec<Vec<String>>, exists: &Vec<Vec<bool>>) -> (r: Vec<
    Vec<FileInfo>,
>)
    requires
        exists@.len() == groups@.len(),
        forall|i: int| 0 <= i < groups@.len() ==> (#[trigger] exists@[i])@.len() == groups@[i]@.len(),
    ensures
        r@.len() == groups@.len(),
        forall|i: int, j: int|
            0 <= i < r@.len() && 0 <= j < r@[i]@.len() ==> (#[trigger] r@[i]@[j]).path@
                == groups@[i]@[j]@ && r@[i]@[j].exists == exists@[i]@[j],
        forall|i: int| 0 <= i < r@.len() ==> (#[trigger] r@[i])@.len() == groups@[i]@.len(),
{
    let mut out: Vec<Vec<FileInfo>> = Vec::new();
    let mut i: usize = 0;
    while i < groups.len()
        invariant
            exists@.len() == groups@.len(),
            forall|q: int|
                0 <= q < groups@.len() ==> (#[trigger] exists@[q])@.len() == groups@[q]@.len(),
            i <= groups@.len(),
            out@.len() == i,
            forall|q: int, j: int|
                0 <= q < i && 0 <= j < out@[q]@.len() ==> (#[trigger] out@[q]@[j]).path@
                    == groups@[q]@[j]@ && out@[q]@[j].exists == exists@[q]@[j],
            forall|q: int| 0 <= q < i ==> (#[trigger] out@[q])@.len() == groups@[q]@.len(),
        decreases groups@.len() - i,
    {
        let mut row: Vec<FileInfo> = Vec::new();
        let mut j: usize = 0;
        while j < groups[i].len()
            invariant
                exists@.len() == groups@.len(),
                i < groups@.len(),
                exists@[i as int]@.len() == groups@[i as int]@.len(),
                j <= groups@[i as int]@.len(),
                row@.len() == j,
                forall|q: int|
                    0 <= q < j ==> (#[trigger] row@[q]).path@ == groups@[i as int]@[q]@
                        && row@[q].exists == exists@[i as int]@[q],
            decreases groups@[i as int]@.len() - j,
        {
            row.push(FileInfo { path: groups[i][j].clone(), exists: exists[i][j] });
            j = j + 1;
        }
        out.push(row);
        i = i + 1;
    }
    out
}

/// The MIME content type served for an image path's extension.
pub open spec fn content_type_spec(ext: Option<Seq<char>>) -> Seq<char> {
    match ext {
        Some(e) => {
            if e == seq!['j', 'p', 'g'] || e == seq!['j', 'p', 'e', 'g'] {
                seq!['i', 'm', 'a', 'g', 'e', '/', 'j', 'p', 'e', 'g']
            } else if e == seq!['p', 'n', 'g'] {
                seq!['i', 'm', 'a', 'g', 'e', '/', 'p', 'n', 'g']
            } else if e == seq!['g', 'i', 'f'] {
                seq!['i', 'm', 'a', 'g', 'e', '/', 'g', 'i', 'f']
            } else if e == seq!['w', 'e', 'b', 'p'] {
                seq!['i', 'm', 'a', 'g', 'e', '/', 'w', 'e', 'b', 'p']
            } else if e == seq!['b', 'm', 'p'] {
                seq!['i', 'm', 'a', 'g', 'e', '/', 'b', 'm', 'p']
            } else if e == seq!['t', 'i', 'f', 'f'] || e == seq!['t', 'i', 'f'] {
                seq!['i', 'm', 'a', 'g', 'e', '/', 't', 'i', 'f', 'f']
            } else {
                octet_stream_chars()
            }
        },
        None => octet_stream_chars(),
    }
}

/// The fallback content type.
pub open spec fn octet_stream_chars() -> Seq<char> {
    seq![
        'a', 'p', 'p', 'l', 'i', 'c', 'a', 't', 'i', 'o', 'n', '/', 'o', 'c', 't', 'e', 't', '-',
        's', 't', 'r', 'e', 'a', 'm',
    ]
}

/// Picks the content type an image file is served with, by its exact
/// (already lower-case) extension.
pub fn content_type_for(extension: Option<&String>) -> (r: &'static str)
    ensures
        r@ == content_type_spec(match extension {
            Some(e) => Some(e@),
            None => None,
        }),
{
    proof {
        reveal_strlit("jpg");
        reveal_strlit("jpeg");
        reveal_strlit("png");
        reveal_strlit("gif");
        reveal_strlit("webp");
        reveal_strlit("bmp");
        reveal_strlit("tiff");
        reveal_strlit("tif");
        reveal_strlit("image/jpeg");
        reveal_strlit("image/png");
        reveal_strlit("image/gif");
        reveal_strlit("image/webp");
        reveal_strlit("image/bmp");
        reveal_strlit("image/tiff");
        reveal_strlit("application/octet-stream");
    }
    let ext = match extension {
        Some(e) => e,
        None => {
            let r = "application/octet-stream";
            proof {
                reveal_strlit("application/octet-stream");
                assert(r@ =~= octet_stream_chars());
            }
            return r;
        },
    };
    if str_eq(ext.as_str(), "jpg") || str_eq(ext.as_str(), "jpeg") {
        let r = "image/jpeg";
        proof {
            reveal_strlit("jpg");
            reveal_strlit("jpeg");
            reveal_strlit("png");
            reveal_strlit("gif");
            reveal_strlit("webp");
            reveal_strlit("bmp");
            reveal_strlit("tiff");
            reveal_strlit("tif");
            reveal_strlit("image/jpeg");
            reveal_strlit("image/png");
            reveal_strlit("image/gif");
            reveal_strlit("image/webp");
            reveal_strlit("image/bmp");
            reveal_strlit("image/tiff");
            reveal_strlit("application/octet-stream");
            assert("jpg"@ =~= seq!['j', 'p', 'g']);
            assert("jpeg"@ =~= seq!['j', 'p', 'e', 'g']);
            assert("png"@ =~= seq!['p', 'n', 'g']);
            assert("gif"@ =~= seq!['g', 'i', 'f']);
            assert("webp"@ =~= seq!['w', 'e', 'b', 'p']);
            assert("bmp"@ =~= seq!['b', 'm', 'p']);
            assert("tiff"@ =~= seq!['t', 'i', 'f', 'f']);
            assert("tif"@ =~= seq!['t', 'i', 'f']);
            assert(r@ =~= content_type_spec(Some(ext@)));
        }
        r
    } else if str_eq(ext.as_str(), "png") {
        let r = "image/png";
        proof {
            reveal_strlit("jpg");
            reveal_strlit("jpeg");
            reveal_strlit("png");
            reveal_strlit("gif");
            reveal_strlit("webp");
            reveal_strlit("bmp");
            reveal_strlit("tiff");
            reveal_strlit("tif");
            reveal_strlit("image/jpeg");
            reveal_strlit("image/png");
            reveal_strlit("image/gif");
            reveal_strlit("image/webp");
            reveal_strlit("image/bmp");
            reveal_strlit("image/tiff");
            reveal_strlit("application/octet-stream");
            assert("jpg"@ =~= seq!['j', 'p', 'g']);
            assert("jpeg"@ =~= seq!['j', 'p', 'e', 'g']);
            assert("png"@ =~= seq!['p', 'n', 'g']);
            assert("gif"@ =~= seq!['g', 'i', 'f']);
            assert("webp"@ =~= seq!['w', 'e', 'b', 'p']);
            assert("bmp"@ =~= seq!['b', 'm', 'p']);
            assert("tiff"@ =~= seq!['t', 'i', 'f', 'f']);
            assert("tif"@ =~= seq!['t', 'i', 'f']);
            assert(r@ =~= content_type_spec(Some(ext@)));
        }
        r
    } else if str_eq(ext.as_str(), "gif") {
        let r = "image/gif";
        proof {
            reveal_strlit("jpg");
            reveal_strlit("jpeg");
            reveal_strlit("png");
            reveal_strlit("gif");
            reveal_strlit("webp");
            reveal_strlit("bmp");
            reveal_strlit("tiff");
            reveal_strlit("tif");
            reveal_strlit("image/jpeg");
            reveal_strlit("image/png");
            reveal_strlit("image/gif");
            reveal_strlit("image/webp");
            reveal_strlit("image/bmp");
            reveal_strlit("image/tiff");
            reveal_strlit("application/octet-stream");
            assert("jpg"@ =~= seq!['j', 'p', 'g']);
            assert("jpeg"@ =~= seq!['j', 'p', 'e', 'g']);
            assert("png"@ =~= seq!['p', 'n', 'g']);
            assert("gif"@ =~= seq!['g', 'i', 'f']);
            assert("webp"@ =~= seq!['w', 'e', 'b', 'p']);
            assert("bmp"@ =~= seq!['b', 'm', 'p']);
            assert("tiff"@ =~= seq!['t', 'i', 'f', 'f']);
            assert("tif"@ =~= seq!['t', 'i', 'f']);
            assert(r@ =~= content_type_spec(Some(ext@)));
        }
        r
    } else if str_eq(ext.as_str(), "webp") {
        let r = "image/webp";
        proof {
            reveal_strlit("jpg");
            reveal_strlit("jpeg");
            reveal_strlit("png");
            reveal_strlit("gif");
            reveal_strlit("webp");
            reveal_strlit("bmp");
            reveal_strlit("tiff");
            reveal_strlit("tif");
            reveal_strlit("image/jpeg");
            reveal_strlit("image/png");
            reveal_strlit("image/gif");
            reveal_strlit("image/webp");
            reveal_strlit("image/bmp");
            reveal_strlit("image/tiff");
            reveal_strlit("application/octet-stream");
            assert("jpg"@ =~= seq!['j', 'p', 'g']);
            assert("jpeg"@ =~= seq!['j', 'p', 'e', 'g']);
            assert("png"@ =~= seq!['p', 'n', 'g']);
            assert("gif"@ =~= seq!['g', 'i', 'f']);
            assert("webp"@ =~= seq!['w', 'e', 'b', 'p']);
            assert("bmp"@ =~= seq!['b', 'm', 'p']);
            assert("tiff"@ =~= seq!['t', 'i', 'f', 'f']);
            assert("tif"@ =~= seq!['t', 'i', 'f']);
            assert(r@ =~= content_type_spec(Some(ext@)));
        }
        r
    } else if str_eq(ext.as_str(), "bmp") {
        let r = "image/bmp";
        proof {
            reveal_strlit("jpg");
            reveal_strlit("jpeg");
            reveal_strlit("png");
            reveal_strlit("gif");
            reveal_strlit("webp");
            reveal_strlit("bmp");
            reveal_strlit("tiff");
            reveal_strlit("tif");
            reveal_strlit("image/jpeg");
            reveal_strlit("image/png");
            reveal_strlit("image/gif");
            reveal_strlit("image/webp");
            reveal_strlit("image/bmp");
            reveal_strlit("image/tiff");
            reveal_strlit("application/octet-stream");
            assert("jpg"@ =~= seq!['j', 'p', 'g']);
            assert("jpeg"@ =~= seq!['j', 'p', 'e', 'g']);
            assert("png"@ =~= seq!['p', 'n', 'g']);
            assert("gif"@ =~= seq!['g', 'i', 'f']);
            assert("webp"@ =~= seq!['w', 'e', 'b', 'p']);
            assert("bmp"@ =~= seq!['b', 'm', 'p']);
            assert("tiff"@ =~= seq!['t', 'i', 'f', 'f']);
            assert("tif"@ =~= seq!['t', 'i', 'f']);
            assert(r@ =~= content_type_spec(Some(ext@)));
        }
        r
    } else if str_eq(ext.as_str(), "tiff") || str_eq(ext.as_str(), "tif") {
        let r = "image/tiff";
        proof {
            reveal_strlit("jpg");
            reveal_strlit("jpeg");
            reveal_strlit("png");
            reveal_strlit("gif");
            reveal_strlit("webp");
            reveal_strlit("bmp");
            reveal_strlit("tiff");
            reveal_strlit("tif");
            reveal_strlit("image/jpeg");
            reveal_strlit("image/png");
            reveal_strlit("image/gif");
            reveal_strlit("image/webp");
            reveal_strlit("image/bmp");
            reveal_strlit("image/tiff");
            reveal_strlit("application/octet-stream");
            assert("jpg"@ =~= seq!['j', 'p', 'g']);
            assert("jpeg"@ =~= seq!['j', 'p', 'e', 'g']);
            assert("png"@ =~= seq!['p', 'n', 'g']);
            assert("gif"@ =~= seq!['g', 'i', 'f']);
            assert("webp"@ =~= seq!['w', 'e', 'b', 'p']);
            assert("bmp"@ =~= seq!['b', 'm', 'p']);
            assert("tiff"@ =~= seq!['t', 'i', 'f', 'f']);
            assert("tif"@ =~= seq!['t', 'i', 'f']);
            assert(r@ =~= content_type_spec(Some(ext@)));
        }
        r
    } else {
        let r = "application/octet-stream";
        proof {
            reveal_strlit("jpg");
            reveal_strlit("jpeg");
            reveal_strlit("png");
            reveal_strlit("gif");
            reveal_strlit("webp");
            reveal_strlit("bmp");
            reveal_strlit("tiff");
            reveal_strlit("tif");
            reveal_strlit("image/jpeg");
            reveal_strlit("image/png");
            reveal_strlit("image/gif");
            reveal_strlit("image/webp");
            reveal_strlit("image/bmp");
            reveal_strlit("image/tiff");
            reveal_strlit("application/octet-stream");
            assert("jpg"@ =~= seq!['j', 'p', 'g']);
            assert("jpeg"@ =~= seq!['j', 'p', 'e', 'g']);
            assert("png"@ =~= seq!['p', 'n', 'g']);
            assert("gif"@ =~= seq!['g', 'i', 'f']);
            assert("webp"@ =~= seq!['w', 'e', 'b', 'p']);
            assert("bmp"@ =~= seq!['b', 'm', 'p']);
            assert("tiff"@ =~= seq!['t', 'i', 'f', 'f']);
            assert("tif"@ =~= seq!['t', 'i', 'f']);
            assert(r@ =~= octet_stream_chars());
            assert(ext@ != seq!['j', 'p', 'g'] && ext@ != seq!['j', 'p', 'e', 'g'] && ext@ != seq![
                'p', 'n', 'g',
            ] && ext@ != seq!['g', 'i', 'f'] && ext@ != seq!['w', 'e', 'b', 'p'] && ext@ != seq![
                'b', 'm', 'p',
            ] && ext@ != seq!['t', 'i', 'f', 'f'] && ext@ != seq!['t', 'i', 'f']);
        }
        r
    }
}

} // verus!
