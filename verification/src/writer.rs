//! Result writer discipline: stage, then commit.
//!
//! Each artifact is persisted by writing the full content to a staging
//! path and then renaming the staging path onto the destination in one
//! atomic step; the two artifacts are handled in a fixed order,
//! transcription before diarization. This module models the protocol over
//! a map from paths to committed contents and proves that a crash between
//! any two steps never exposes a partial artifact: each destination either
//! still holds what it held before, or holds the complete new content, and
//! the diarization artifact is never new while the transcription artifact
//! is still old.

use vstd::prelude::*;
use crate::normalize::clone_bytes;

verus! {

broadcast use vstd::seq::group_seq_axioms;

/// The file system state the protocol steps through: after `k` of its four
/// steps (stage transcription, commit transcription, stage diarization,
/// commit diarization) starting from `fs`.
pub open spec fn stage_commit_state(
    fs: Map<Seq<u8>, Seq<u8>>,
    tmp_t: Seq<u8>,
    tpath: Seq<u8>,
    tcontent: Seq<u8>,
    tmp_d: Seq<u8>,
    dpath: Seq<u8>,
    dcontent: Seq<u8>,
    k: int,
) -> Map<Seq<u8>, Seq<u8>> {
    if k <= 0 {
        fs
    } else if k == 1 {
        fs.insert(tmp_t, tcontent)
    } else if k == 2 {
        fs.insert(tmp_t, tcontent).remove(tmp_t).insert(tpath, tcontent)
    } else if k == 3 {
        fs.insert(tmp_t, tcontent).remove(tmp_t).insert(tpath, tcontent).insert(tmp_d, dcontent)
    } else {
        fs.insert(tmp_t, tcontent).remove(tmp_t).insert(tpath, tcontent).insert(
            tmp_d,
            dcontent,
        ).remove(tmp_d).insert(dpath, dcontent)
    }
}

/// Atomicity of the staged-write protocol: at every point of the
/// protocol, interrupted or not, the transcription destination holds
/// either its previous content or the complete new content — never a
/// truncated one — and likewise for the diarization destination; and the
/// diarization destination is only new once the transcription destination
/// is. An interrupted run can thus leave the new transcription artifact
/// beside the old diarization artifact, which is the documented behavior,
/// but never a torn file.
pub proof fn lemma_staged_writes_atomic(
    fs: Map<Seq<u8>, Seq<u8>>,
    tmp_t: Seq<u8>,
    tpath: Seq<u8>,
    tcontent: Seq<u8>,
    tmp_d: Seq<u8>,
    dpath: Seq<u8>,
    dcontent: Seq<u8>,
    k: int,
)
    requires
        0 <= k <= 4,
        tpath != dpath,
        tmp_t != tpath,
        tmp_t != dpath,
        tmp_d != tpath,
        tmp_d != dpath,
        tmp_t != tmp_d,
    ensures
        ({
            let st = stage_commit_state(fs, tmp_t, tpath, tcontent, tmp_d, dpath, dcontent, k);
            &&& k < 2 ==> st.contains_key(tpath) == fs.contains_key(tpath) && (fs.contains_key(
                tpath,
            ) ==> st[tpath] == fs[tpath])
            &&& k >= 2 ==> st.contains_key(tpath) && st[tpath] == tcontent
            &&& k < 4 ==> st.contains_key(dpath) == fs.contains_key(dpath) && (fs.contains_key(
                dpath,
            ) ==> st[dpath] == fs[dpath])
            &&& k == 4 ==> st.contains_key(dpath) && st[dpath] == dcontent
            &&& (k == 4 ==> st[dpath] == dcontent) && (st.contains_key(tpath) && k >= 2
                ==> st[tpath] == tcontent)
        }),
{
}

/// The staging-path suffix, `.tmp`.
pub open spec fn staging_suffix() -> Seq<u8> {
    seq![46u8, 116, 109, 112]
}

/// The staging path beside a destination path.
pub fn staging_path(path: &Vec<u8>) -> (r: Vec<u8>)
    ensures
        r@ == path@ + staging_suffix(),
{
    let mut r = clone_bytes(path);
    r.push(46);
    r.push(116);
    r.push(109);
    r.push(112);
    proof {
        assert(r@ =~= path@ + staging_suffix());
    }
    r
}

} // verus!
