//! Per-group processing: one composition, its output file, and the deletion
//! plan for the group's source files.
//!
//! Reading tile files, writing the output and removing sources are the
//! caller's side effects; this module decides, from plain values, exactly
//! what is written and what may be deleted, so that a failed group provably
//! deletes nothing.

use vstd::prelude::*;

use crate::compose::{
    compose_post, compose_skybox, ComposeError, ComposeOutput, TileSource, TileSourceView,
    source_views,
};
use crate::grouping::path_views;
use crate::skybox_tile::SkyboxTile;

verus! {

/// The paths of a sequence of tile sources.
pub open spec fn source_paths(tiles: Seq<TileSourceView>) -> Seq<Seq<char>> {
    Seq::new(tiles.len(), |i: int| tiles[i].path)
}

/// Everything one group's composition decides: the name of the file to
/// write, the composition result, and the source paths to delete once the
/// output has been written.
pub struct GroupPlan {
    /// The output file's name, `<prefix>skybox.png`.
    pub output_name: String,
    /// The composed PNG, or why the group failed.
    pub result: Result<ComposeOutput, ComposeError>,
    /// The source files to remove, in tile order: all six exactly when
    /// deletion was requested and the composition succeeded, empty
    /// otherwise. To be applied only after the output file is written.
    pub deletions: Vec<String>,
}

/// What `process_group` promises.
pub open spec fn plan_post(
    prefix: Seq<char>,
    tiles: Seq<TileSourceView>,
    delete_inputs: bool,
    p: GroupPlan,
) -> bool {
    &&& p.output_name@ == prefix + "skybox.png"@
    &&& compose_post(tiles, p.result)
    &&& path_views(p.deletions@) == if delete_inputs && p.result is Ok {
        source_paths(tiles)
    } else {
        Seq::<Seq<char>>::empty()
    }
}

/// Runs one group's composition and plans its side effects. A group whose
/// reference decodes and whose canvas fits the machine always gets an
/// output; a group that fails produces no output and an empty deletion list,
/// whatever the delete flag says.
pub fn process_group(prefix: &str, tiles: &Vec<TileSource>, delete_inputs: bool) -> (r: GroupPlan)
    requires
        tiles@.len() == 6,
    ensures
        plan_post(prefix@, source_views(tiles@), delete_inputs, r),
{
    let result = compose_skybox(tiles);
    let output_name = SkyboxTile::result_file_name(prefix);
    let mut deletions: Vec<String> = Vec::new();
    if delete_inputs && result.is_ok() {
        let mut i: usize = 0;
        while i < tiles.len()
            invariant
                i <= tiles@.len(),
                path_views(deletions@) == source_paths(source_views(tiles@)).subrange(
                    0,
                    i as int,
                ),
            decreases tiles@.len() - i,
        {
            let ghost old_del = deletions@;
            proof {
                assert(path_views(old_del).len() == old_del.len());
                assert(old_del.len() == i);
            }
            let t = &tiles[i];
            let pth = t.path.clone();
            proof {
                assert(pth == tiles@[i as int].path);
            }
            deletions.push(pth);
            proof {
                let all = source_paths(source_views(tiles@));
                assert(deletions@ == old_del.push(tiles@[i as int].path));
                assert(deletions@[i as int]@ == tiles@[i as int].path@);
                assert(all[i as int] == tiles@[i as int].path@);
                assert forall|j: int| 0 <= j < i implies deletions@[j]@ == all[j] by {
                    assert(deletions@[j] == old_del[j]);
                    assert(path_views(old_del)[j] == all.subrange(0, i as int)[j]);
                }
                assert(path_views(deletions@) =~= all.subrange(0, i + 1));
            }
            i = i + 1;
        }
        proof {
            assert(source_paths(source_views(tiles@)).subrange(0, tiles@.len() as int)
                =~= source_paths(source_views(tiles@)));
        }
    }
    proof {
        if !(delete_inputs && result is Ok) {
            assert(path_views(deletions@) =~= Seq::<Seq<char>>::empty());
        }
    }
    GroupPlan { output_name, result, deletions }
}

/// Deletion never outruns success: a group whose composition failed plans no
/// deletion, whatever the delete flag says, and with the flag unset nothing
/// is ever deleted.
pub proof fn lemma_no_deletion_without_success(
    prefix: Seq<char>,
    tiles: Seq<TileSourceView>,
    delete_inputs: bool,
    p: GroupPlan,
)
    requires
        plan_post(prefix, tiles, delete_inputs, p),
        p.result is Err || !delete_inputs,
    ensures
        path_views(p.deletions@) == Seq::<Seq<char>>::empty(),
        p.deletions@.len() == 0,
{
    assert(path_views(p.deletions@).len() == p.deletions@.len());
}

/// Deletion on success: with the delete flag set and a successful
/// composition, the plan removes exactly the six source files.
pub proof fn lemma_delete_on_success(
    prefix: Seq<char>,
    tiles: Seq<TileSourceView>,
    p: GroupPlan,
)
    requires
        plan_post(prefix, tiles, true, p),
        p.result is Ok,
        tiles.len() == 6,
    ensures
        path_views(p.deletions@) == source_paths(tiles),
        p.deletions@.len() == 6,
{
    assert(path_views(p.deletions@).len() == p.deletions@.len());
}

} // verus!
