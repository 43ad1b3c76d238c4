//! Grouping of classified tiles into skybox sets.
//!
//! Tiles are keyed by their group prefix, keeping the order in which prefixes
//! first appear and the order of tiles within one group. A group is usable
//! for composition only when it holds exactly six tiles covering all six
//! faces; every other group is excluded, with the list of faces it lacks
//! reported as a diagnostic.

use vstd::prelude::*;

use crate::skybox_tile::{
    all_faces, canonical_name, lemma_classify_canonical, tile_of_path, SkyboxTile,
    SkyboxTilePosition, SkyboxTileView,
};

verus! {

/// One usable skybox set: the shared group key and its six tiles.
#[derive(Debug)]
pub struct SkyboxGroup {
    pub prefix: String,
    pub tiles: Vec<SkyboxTile>,
}

/// Diagnostic for one excluded group: its key and the faces it lacks
/// (empty when the group was excluded for holding more than six tiles).
#[derive(Debug)]
pub struct SkippedGroup {
    pub prefix: String,
    pub missing: Vec<SkyboxTilePosition>,
}

/// The grouper's outcome: the usable groups and the excluded ones.
#[derive(Debug)]
pub struct GroupingResult {
    pub valid: Vec<SkyboxGroup>,
    pub skipped: Vec<SkippedGroup>,
}

/// The one fatal grouping condition: no input path classified as a tile.
#[derive(Clone, Copy, Debug, PartialEq, Eq, Structural)]
pub enum GroupingError {
    NoClassifiableTiles,
}

/// The views of a sequence of strings.
pub open spec fn path_views(paths: Seq<String>) -> Seq<Seq<char>> {
    Seq::new(paths.len(), |i: int| paths[i]@)
}

/// The views of a sequence of tiles.
pub open spec fn views_of_tiles(tiles: Seq<SkyboxTile>) -> Seq<SkyboxTileView> {
    Seq::new(tiles.len(), |i: int| tiles[i]@)
}

/// The group keys of a sequence of groups.
pub open spec fn prefixes_of(groups: Seq<SkyboxGroup>) -> Seq<Seq<char>> {
    Seq::new(groups.len(), |i: int| groups[i].prefix@)
}

/// The group keys of a sequence of skipped-group reports.
pub open spec fn skipped_prefixes_of(skipped: Seq<SkippedGroup>) -> Seq<Seq<char>> {
    Seq::new(skipped.len(), |i: int| skipped[i].prefix@)
}

/// The tiles that the given paths classify into, in input order.
pub open spec fn classified_views(paths: Seq<Seq<char>>) -> Seq<SkyboxTileView>
    decreases paths.len(),
{
    if paths.len() == 0 {
        Seq::empty()
    } else {
        let rest = classified_views(paths.drop_last());
        match tile_of_path(paths.last()) {
            Some(pp) => rest.push(
                SkyboxTileView { path: paths.last(), prefix: pp.1, position: pp.0 },
            ),
            None => rest,
        }
    }
}

/// The distinct group keys of `tiles`, in order of first appearance.
pub open spec fn group_prefixes(tiles: Seq<SkyboxTileView>) -> Seq<Seq<char>>
    decreases tiles.len(),
{
    if tiles.len() == 0 {
        Seq::empty()
    } else {
        let rest = group_prefixes(tiles.drop_last());
        if rest.contains(tiles.last().prefix) {
            rest
        } else {
            rest.push(tiles.last().prefix)
        }
    }
}

/// The tiles of `tiles` that carry the group key `p`, in order.
pub open spec fn tiles_with_prefix(tiles: Seq<SkyboxTileView>, p: Seq<char>) -> Seq<
    SkyboxTileView,
>
    decreases tiles.len(),
{
    if tiles.len() == 0 {
        Seq::empty()
    } else {
        let rest = tiles_with_prefix(tiles.drop_last(), p);
        if tiles.last().prefix == p {
            rest.push(tiles.last())
        } else {
            rest
        }
    }
}

/// Whether some tile of `tiles` covers the face `f`.
pub open spec fn has_face(tiles: Seq<SkyboxTileView>, f: SkyboxTilePosition) -> bool {
    exists|i: int| 0 <= i < tiles.len() && tiles[i].position == f
}

/// A set is valid for composition: exactly six tiles, covering all six faces
/// (hence one tile per face, with no duplicates).
pub open spec fn complete_set(tiles: Seq<SkyboxTileView>) -> bool {
    tiles.len() == 6 && (forall|f: SkyboxTilePosition| has_face(tiles, f))
}

/// The faces of `faces` that no tile of `tiles` covers, in order.
pub open spec fn faces_missing_from(
    tiles: Seq<SkyboxTileView>,
    faces: Seq<SkyboxTilePosition>,
) -> Seq<SkyboxTilePosition>
    decreases faces.len(),
{
    if faces.len() == 0 {
        Seq::empty()
    } else {
        let rest = faces_missing_from(tiles, faces.drop_last());
        if has_face(tiles, faces.last()) {
            rest
        } else {
            rest.push(faces.last())
        }
    }
}

/// The faces that `tiles` lacks, in classification order.
pub open spec fn missing_faces_of(tiles: Seq<SkyboxTileView>) -> Seq<SkyboxTilePosition> {
    faces_missing_from(tiles, all_faces())
}

/// The group keys of `ps` whose tiles form a complete set.
pub open spec fn complete_filter(tiles: Seq<SkyboxTileView>, ps: Seq<Seq<char>>) -> Seq<
    Seq<char>,
>
    decreases ps.len(),
{
    if ps.len() == 0 {
        Seq::empty()
    } else {
        let rest = complete_filter(tiles, ps.drop_last());
        if complete_set(tiles_with_prefix(tiles, ps.last())) {
            rest.push(ps.last())
        } else {
            rest
        }
    }
}

/// The group keys of `ps` whose tiles do not form a complete set.
pub open spec fn incomplete_filter(tiles: Seq<SkyboxTileView>, ps: Seq<Seq<char>>) -> Seq<
    Seq<char>,
>
    decreases ps.len(),
{
    if ps.len() == 0 {
        Seq::empty()
    } else {
        let rest = incomplete_filter(tiles, ps.drop_last());
        if complete_set(tiles_with_prefix(tiles, ps.last())) {
            rest
        } else {
            rest.push(ps.last())
        }
    }
}

/// Distinct group keys never repeat.
pub proof fn lemma_group_prefixes_nodup(tiles: Seq<SkyboxTileView>)
    ensures
        forall|i: int, j: int|
            0 <= i < j < group_prefixes(tiles).len() ==> group_prefixes(tiles)[i]
                != group_prefixes(tiles)[j],
    decreases tiles.len(),
{
    if tiles.len() == 0 {
    } else {
        lemma_group_prefixes_nodup(tiles.drop_last());
        let rest = group_prefixes(tiles.drop_last());
        if !rest.contains(tiles.last().prefix) {
            assert(forall|i: int| 0 <= i < rest.len() ==> rest[i] != tiles.last().prefix);
        }
    }
}

/// A key that appears in no group has no tiles.
pub proof fn lemma_absent_prefix_empty(tiles: Seq<SkyboxTileView>, p: Seq<char>)
    requires
        !group_prefixes(tiles).contains(p),
    ensures
        tiles_with_prefix(tiles, p).len() == 0,
    decreases tiles.len(),
{
    if tiles.len() == 0 {
    } else {
        let rest = group_prefixes(tiles.drop_last());
        if rest.contains(p) {
            let i = choose|i: int| 0 <= i < rest.len() && rest[i] == p;
            if rest.contains(tiles.last().prefix) {
                assert(group_prefixes(tiles)[i] == p);
            } else {
                assert(group_prefixes(tiles)[i] == p);
            }
            assert(false);
        }
        lemma_absent_prefix_empty(tiles.drop_last(), p);
        if tiles.last().prefix == p {
            if rest.contains(p) {
            } else {
                assert(group_prefixes(tiles).last() == p);
                assert(false);
            }
        }
    }
}

/// No face of `faces` is reported missing exactly when every face of `faces`
/// is covered.
pub proof fn lemma_faces_missing_empty(
    tiles: Seq<SkyboxTileView>,
    faces: Seq<SkyboxTilePosition>,
)
    ensures
        faces_missing_from(tiles, faces).len() == 0 <==> (forall|j: int|
            0 <= j < faces.len() ==> has_face(tiles, #[trigger] faces[j])),
    decreases faces.len(),
{
    if faces.len() == 0 {
    } else {
        lemma_faces_missing_empty(tiles, faces.drop_last());
        assert(forall|j: int| 0 <= j < faces.len() - 1 ==> faces.drop_last()[j] == faces[j]);
        assert(faces.last() == faces[faces.len() - 1]);
    }
}

/// Every face value occurs in `all_faces()`.
pub proof fn lemma_all_faces_exhaustive()
    ensures
        forall|f: SkyboxTilePosition| #[trigger] all_faces().contains(f),
{
    assert forall|f: SkyboxTilePosition| #[trigger] all_faces().contains(f) by {
        match f {
            SkyboxTilePosition::Left => assert(all_faces()[0] == f),
            SkyboxTilePosition::Right => assert(all_faces()[1] == f),
            SkyboxTilePosition::Up => assert(all_faces()[2] == f),
            SkyboxTilePosition::Down => assert(all_faces()[3] == f),
            SkyboxTilePosition::Front => assert(all_faces()[4] == f),
            SkyboxTilePosition::Back => assert(all_faces()[5] == f),
        }
    }
}

/// What `get_skyboxes` promises: classification follows `tile_of_path` on
/// every input path in order; the usable groups are exactly the complete
/// ones, keyed in order of first appearance, each holding exactly its own
/// tiles in input order; every other group is reported with the faces it
/// lacks; and the one error arises exactly when no path classified at all.
pub open spec fn grouping_post(
    paths: Seq<String>,
    r: Result<GroupingResult, GroupingError>,
) -> bool {
    let ts = classified_views(path_views(paths));
    match r {
        Err(e) => ts.len() == 0 && e == GroupingError::NoClassifiableTiles,
        Ok(g) => {
            &&& ts.len() > 0
            &&& prefixes_of(g.valid@) == complete_filter(ts, group_prefixes(ts))
            &&& forall|i: int|
                0 <= i < g.valid@.len() ==> views_of_tiles(#[trigger] g.valid@[i].tiles@)
                    == tiles_with_prefix(ts, prefixes_of(g.valid@)[i])
            &&& forall|i: int|
                0 <= i < g.valid@.len() ==> complete_set(
                    tiles_with_prefix(ts, #[trigger] prefixes_of(g.valid@)[i]),
                )
            &&& skipped_prefixes_of(g.skipped@) == incomplete_filter(ts, group_prefixes(ts))
            &&& forall|i: int|
                0 <= i < g.skipped@.len() ==> #[trigger] g.skipped@[i].missing@
                    == missing_faces_of(
                    tiles_with_prefix(ts, skipped_prefixes_of(g.skipped@)[i]),
                )
        },
    }
}

/// When every path classifies, classification keeps them all, in order.
pub proof fn lemma_classified_pointwise(paths: Seq<Seq<char>>)
    requires
        forall|i: int| 0 <= i < paths.len() ==> tile_of_path(#[trigger] paths[i]) is Some,
    ensures
        classified_views(paths).len() == paths.len(),
        forall|i: int|
            0 <= i < paths.len() ==> (#[trigger] classified_views(paths)[i]).path == paths[i]
                && tile_of_path(paths[i]) == Some(
                (classified_views(paths)[i].position, classified_views(paths)[i].prefix),
            ),
    decreases paths.len(),
{
    if paths.len() == 0 {
    } else {
        assert(forall|j: int| 0 <= j < paths.len() - 1 ==> paths.drop_last()[j] == paths[j]);
        lemma_classified_pointwise(paths.drop_last());
        assert(forall|j: int|
            0 <= j < paths.len() - 1 ==> classified_views(paths)[j] == #[trigger] classified_views(
                paths.drop_last(),
            )[j]);
    }
}

/// A set of tiles that all share one key forms exactly one group.
pub proof fn lemma_single_prefix(ts: Seq<SkyboxTileView>, p: Seq<char>)
    requires
        ts.len() > 0,
        forall|i: int| 0 <= i < ts.len() ==> (#[trigger] ts[i]).prefix == p,
    ensures
        group_prefixes(ts) == seq![p],
    decreases ts.len(),
{
    if ts.len() == 1 {
        assert(group_prefixes(ts.drop_last()).len() == 0);
        assert(group_prefixes(ts) =~= seq![p]);
    } else {
        assert(forall|j: int| 0 <= j < ts.len() - 1 ==> ts.drop_last()[j] == ts[j]);
        lemma_single_prefix(ts.drop_last(), p);
        assert(group_prefixes(ts.drop_last()).contains(ts.last().prefix)) by {
            assert(group_prefixes(ts.drop_last())[0] == p);
        }
    }
}

/// Filtering by a key that every tile carries keeps every tile.
pub proof fn lemma_all_prefix_filter_id(ts: Seq<SkyboxTileView>, p: Seq<char>)
    requires
        forall|i: int| 0 <= i < ts.len() ==> (#[trigger] ts[i]).prefix == p,
    ensures
        tiles_with_prefix(ts, p) == ts,
    decreases ts.len(),
{
    if ts.len() == 0 {
        assert(tiles_with_prefix(ts, p) =~= ts);
    } else {
        assert(forall|j: int| 0 <= j < ts.len() - 1 ==> ts.drop_last()[j] == ts[j]);
        lemma_all_prefix_filter_id(ts.drop_last(), p);
        assert(tiles_with_prefix(ts, p) =~= ts);
    }
}

/// Among faces that never repeat, exactly the ones that no tile covers are
/// reported missing.
proof fn lemma_missing_exactly_one(
    ts: Seq<SkyboxTileView>,
    faces: Seq<SkyboxTilePosition>,
    f: SkyboxTilePosition,
)
    requires
        forall|i: int, j: int| 0 <= i < j < faces.len() ==> faces[i] != faces[j],
        forall|j: int| 0 <= j < faces.len() ==> (has_face(ts, #[trigger] faces[j]) <==> faces[j]
            != f),
    ensures
        faces_missing_from(ts, faces) == if faces.contains(f) {
            seq![f]
        } else {
            Seq::<SkyboxTilePosition>::empty()
        },
    decreases faces.len(),
{
    if faces.len() == 0 {
        assert(faces_missing_from(ts, faces) =~= Seq::<SkyboxTilePosition>::empty());
        assert(!faces.contains(f));
    } else {
        let rest = faces.drop_last();
        assert(forall|j: int| 0 <= j < faces.len() - 1 ==> rest[j] == faces[j]);
        lemma_missing_exactly_one(ts, rest, f);
        if faces.last() == f {
            assert(!rest.contains(f)) by {
                if rest.contains(f) {
                    let j = choose|j: int| 0 <= j < rest.len() && rest[j] == f;
                    assert(faces[j] == faces[faces.len() - 1]);
                }
            }
            assert(!has_face(ts, faces.last()));
            assert(faces_missing_from(ts, faces) =~= seq![f]);
            assert(faces.contains(f)) by {
                assert(faces[faces.len() - 1] == f);
            }
        } else {
            assert(has_face(ts, faces.last()));
            assert(faces.contains(f) <==> rest.contains(f)) by {
                if faces.contains(f) {
                    let j = choose|j: int| 0 <= j < faces.len() && faces[j] == f;
                    assert(rest[j] == f);
                }
                if rest.contains(f) {
                    let j = choose|j: int| 0 <= j < rest.len() && rest[j] == f;
                    assert(faces[j] == f);
                }
            }
        }
    }
}

/// The six canonical file names of the group `p`, in face order.
pub open spec fn canonical_names(p: Seq<char>) -> Seq<Seq<char>> {
    Seq::new(6, |i: int| canonical_name(p, all_faces()[i]))
}

/// For the six canonical file names sharing one prefix, handed over in any
/// order, grouping yields exactly one valid set: it is keyed by that prefix,
/// it holds all six classified tiles in input order, and it is complete.
pub proof fn lemma_canonical_set_grouped(paths: Seq<Seq<char>>, p: Seq<char>)
    requires
        paths.to_multiset() == canonical_names(p).to_multiset(),
        forall|j: int| 0 <= j < p.len() ==> p[j] != '/',
    ensures
        ({
            let ts = classified_views(paths);
            &&& ts.len() == 6
            &&& group_prefixes(ts) == seq![p]
            &&& tiles_with_prefix(ts, p) == ts
            &&& complete_set(ts)
            &&& complete_filter(ts, group_prefixes(ts)) == seq![p]
            &&& forall|i: int| 0 <= i < 6 ==> (#[trigger] ts[i]).path == paths[i]
        }),
{
    let ts = classified_views(paths);
    let names = canonical_names(p);
    paths.to_multiset_ensures();
    names.to_multiset_ensures();
    assert(paths.len() == 6);
    assert forall|i: int| 0 <= i < 6 implies tile_of_path(#[trigger] paths[i]) is Some by {
        assert(paths.to_multiset().count(paths[i]) > 0);
        assert(names.contains(paths[i]));
        let j = choose|j: int| 0 <= j < 6 && names[j] == paths[i];
        lemma_classify_canonical(p, all_faces()[j]);
    }
    lemma_classified_pointwise(paths);
    assert forall|i: int| 0 <= i < 6 implies (#[trigger] ts[i]).prefix == p by {
        assert(paths.to_multiset().count(paths[i]) > 0);
        assert(names.contains(paths[i]));
        let j = choose|j: int| 0 <= j < 6 && names[j] == paths[i];
        lemma_classify_canonical(p, all_faces()[j]);
    }
    lemma_single_prefix(ts, p);
    lemma_all_prefix_filter_id(ts, p);
    lemma_all_faces_exhaustive();
    assert forall|f: SkyboxTilePosition| has_face(ts, f) by {
        assert(all_faces().contains(f));
        let jf = choose|jf: int| 0 <= jf < all_faces().len() && all_faces()[jf] == f;
        assert(names[jf] == canonical_name(p, f));
        assert(names.to_multiset().count(names[jf]) > 0);
        assert(paths.contains(canonical_name(p, f)));
        let i = choose|i: int| 0 <= i < 6 && paths[i] == canonical_name(p, f);
        lemma_classify_canonical(p, f);
        assert(ts[i].position == f);
    }
    assert(complete_set(ts));
    let empt = Seq::<Seq<char>>::empty();
    assert(complete_filter(ts, empt) == empt);
    assert(group_prefixes(ts).drop_last() =~= empt);
    assert(group_prefixes(ts).last() == p);
    assert(complete_filter(ts, group_prefixes(ts)) =~= seq![p]);
}

/// A group that lacks exactly one face is excluded, and that one face is
/// exactly what its report names.
pub proof fn lemma_one_missing_face(ts: Seq<SkyboxTileView>, p: Seq<char>, f: SkyboxTilePosition)
    requires
        ts.len() > 0,
        forall|i: int| 0 <= i < ts.len() ==> (#[trigger] ts[i]).prefix == p,
        forall|i: int| 0 <= i < ts.len() ==> (#[trigger] ts[i]).position != f,
        forall|g: SkyboxTilePosition| g != f ==> has_face(ts, g),
    ensures
        !complete_set(tiles_with_prefix(ts, p)),
        missing_faces_of(tiles_with_prefix(ts, p)) == seq![f],
        group_prefixes(ts) == seq![p],
        complete_filter(ts, group_prefixes(ts)) == Seq::<Seq<char>>::empty(),
        incomplete_filter(ts, group_prefixes(ts)) == seq![p],
{
    lemma_single_prefix(ts, p);
    lemma_all_prefix_filter_id(ts, p);
    assert(!has_face(ts, f));
    lemma_all_faces_exhaustive();
    assert(all_faces().contains(f));
    lemma_missing_exactly_one(ts, all_faces(), f);
    assert(!complete_set(ts));
    let empt = Seq::<Seq<char>>::empty();
    assert(complete_filter(ts, empt) == empt);
    assert(incomplete_filter(ts, empt) == empt);
    assert(group_prefixes(ts).drop_last() =~= empt);
    assert(group_prefixes(ts).last() == p);
    assert(complete_filter(ts, group_prefixes(ts)) =~= empt);
    assert(incomplete_filter(ts, group_prefixes(ts)) =~= seq![p]);
}

/// The set invariant: a complete set holds one tile per face, with no
/// duplicate faces. Six tiles covering six distinct faces leave no room for
/// a repeat.
#[verifier::rlimit(60)]
pub proof fn lemma_complete_set_one_per_face(ts: Seq<SkyboxTileView>)
    requires
        complete_set(ts),
    ensures
        forall|i: int, j: int|
            0 <= i < j < ts.len() ==> (#[trigger] ts[i]).position != (#[trigger] ts[j]).position,
{
    assert forall|i: int, j: int|
        0 <= i < j < ts.len() implies (#[trigger] ts[i]).position != (
    #[trigger] ts[j]).position by {
        if ts[i].position == ts[j].position {
            assert(has_face(ts, SkyboxTilePosition::Left));
            assert(has_face(ts, SkyboxTilePosition::Right));
            assert(has_face(ts, SkyboxTilePosition::Up));
            assert(has_face(ts, SkyboxTilePosition::Down));
            assert(has_face(ts, SkyboxTilePosition::Front));
            assert(has_face(ts, SkyboxTilePosition::Back));
            let wl = choose|k: int|
                0 <= k < ts.len() && ts[k].position == SkyboxTilePosition::Left;
            let wr = choose|k: int|
                0 <= k < ts.len() && ts[k].position == SkyboxTilePosition::Right;
            let wu = choose|k: int| 0 <= k < ts.len() && ts[k].position == SkyboxTilePosition::Up;
            let wd = choose|k: int|
                0 <= k < ts.len() && ts[k].position == SkyboxTilePosition::Down;
            let wf = choose|k: int|
                0 <= k < ts.len() && ts[k].position == SkyboxTilePosition::Front;
            let wb = choose|k: int|
                0 <= k < ts.len() && ts[k].position == SkyboxTilePosition::Back;
            assert(ts[wl].position == SkyboxTilePosition::Left);
            assert(ts[wr].position == SkyboxTilePosition::Right);
            assert(ts[wu].position == SkyboxTilePosition::Up);
            assert(ts[wd].position == SkyboxTilePosition::Down);
            assert(ts[wf].position == SkyboxTilePosition::Front);
            assert(ts[wb].position == SkyboxTilePosition::Back);
            // six pairwise distinct indices in a range of six leave no index
            // over: both i and j are among the witnesses
            assert(i == wl || i == wr || i == wu || i == wd || i == wf || i == wb);
            assert(j == wl || j == wr || j == wu || j == wd || j == wf || j == wb);
            assert(false);
        }
    }
}

/// A path that classifies as no tile affects nothing: classification of any
/// input list ends the same with or without it.
pub proof fn lemma_unclassifiable_path_inert(paths: Seq<Seq<char>>, x: Seq<char>)
    requires
        tile_of_path(x) is None,
    ensures
        classified_views(paths.push(x)) == classified_views(paths),
{
    assert(paths.push(x).drop_last() =~= paths);
}

/// Character-for-character string equality.
fn str_eq(a: &str, b: &str) -> (r: bool)
    ensures
        r == (a@ == b@),
{
    let n = a.unicode_len();
    if n != b.unicode_len() {
        return false;
    }
    let mut k: usize = 0;
    while k < n
        invariant
            n == a@.len(),
            n == b@.len(),
            k <= n,
            forall|t: int| 0 <= t < k ==> a@[t] == b@[t],
        decreases n - k,
    {
        if a.get_char(k) != b.get_char(k) {
            return false;
        }
        k = k + 1;
    }
    proof {
        assert(a@ =~= b@);
    }
    true
}

/// Whether some tile of `tiles` covers the face `f`.
pub fn set_has_face(tiles: &Vec<SkyboxTile>, f: SkyboxTilePosition) -> (r: bool)
    ensures
        r == has_face(views_of_tiles(tiles@), f),
{
    let mut i: usize = 0;
    while i < tiles.len()
        invariant
            i <= tiles@.len(),
            forall|j: int| 0 <= j < i ==> views_of_tiles(tiles@)[j].position != f,
        decreases tiles@.len() - i,
    {
        if *tiles[i].position() == f {
            proof {
                assert(views_of_tiles(tiles@)[i as int].position == f);
            }
            return true;
        }
        i = i + 1;
    }
    false
}

/// The faces that the set `tiles` lacks, in classification order. Purely
/// diagnostic: an excluded group is reported with this list.
pub fn missing_faces(tiles: &Vec<SkyboxTile>) -> (r: Vec<SkyboxTilePosition>)
    ensures
        r@ == missing_faces_of(views_of_tiles(tiles@)),
{
    let faces = [
        SkyboxTilePosition::Left,
        SkyboxTilePosition::Right,
        SkyboxTilePosition::Up,
        SkyboxTilePosition::Down,
        SkyboxTilePosition::Front,
        SkyboxTilePosition::Back,
    ];
    let ghost tv = views_of_tiles(tiles@);
    let mut r: Vec<SkyboxTilePosition> = Vec::new();
    let mut f: usize = 0;
    while f < 6
        invariant
            f <= 6,
            faces@ == all_faces(),
            tv == views_of_tiles(tiles@),
            r@ == faces_missing_from(tv, all_faces().subrange(0, f as int)),
        decreases 6 - f,
    {
        let present = set_has_face(tiles, faces[f]);
        if !present {
            r.push(faces[f]);
        }
        proof {
            let sub = all_faces().subrange(0, f + 1);
            assert(sub.drop_last() =~= all_faces().subrange(0, f as int));
            assert(sub.last() == all_faces()[f as int]);
        }
        f = f + 1;
    }
    proof {
        assert(all_faces().subrange(0, 6) =~= all_faces());
    }
    r
}

/// Classifies every path, keeping the tiles in input order.
fn classify_paths(paths: &Vec<String>) -> (r: Vec<SkyboxTile>)
    ensures
        views_of_tiles(r@) == classified_views(path_views(paths@)),
{
    let ghost pv = path_views(paths@);
    let mut tiles: Vec<SkyboxTile> = Vec::new();
    proof {
        assert(pv.subrange(0, 0) =~= Seq::<Seq<char>>::empty());
        assert(views_of_tiles(tiles@) =~= classified_views(pv.subrange(0, 0)));
    }
    let mut i: usize = 0;
    while i < paths.len()
        invariant
            i <= paths@.len(),
            pv == path_views(paths@),
            views_of_tiles(tiles@) == classified_views(pv.subrange(0, i as int)),
        decreases paths@.len() - i,
    {
        let p = paths[i].clone();
        let ghost old_tiles = tiles@;
        let classified = SkyboxTile::from_file(p);
        match classified {
            Some(t) => {
                tiles.push(t);
            },
            None => {},
        }
        proof {
            let sub1 = pv.subrange(0, i + 1);
            assert(sub1.drop_last() =~= pv.subrange(0, i as int));
            assert(sub1.last() == paths@[i as int]@);
            match tile_of_path(paths@[i as int]@) {
                Some(pp) => {
                    let t = tiles@.last();
                    assert(t@ == SkyboxTileView {
                        path: paths@[i as int]@,
                        prefix: pp.1,
                        position: pp.0,
                    });
                    assert(views_of_tiles(tiles@) =~= views_of_tiles(old_tiles).push(t@));
                },
                None => {
                    assert(views_of_tiles(tiles@) =~= views_of_tiles(old_tiles));
                },
            }
        }
        i = i + 1;
    }
    proof {
        assert(pv.subrange(0, paths@.len() as int) =~= pv);
    }
    tiles
}

/// The index of the group keyed `key`, if one exists.
fn find_group(groups: &Vec<SkyboxGroup>, key: &str) -> (r: Option<usize>)
    ensures
        match r {
            Some(g) => g < groups@.len() && groups@[g as int].prefix@ == key@,
            None => forall|g: int| 0 <= g < groups@.len() ==> groups@[g].prefix@ != key@,
        },
{
    let mut gi: usize = 0;
    while gi < groups.len()
        invariant
            gi <= groups@.len(),
            forall|g: int| 0 <= g < gi ==> groups@[g].prefix@ != key@,
        decreases groups@.len() - gi,
    {
        if str_eq(groups[gi].prefix.as_str(), key) {
            return Some(gi);
        }
        gi = gi + 1;
    }
    None
}

/// Groups the tiles by their key, keeping the order in which keys first
/// appear and the input order of the tiles within one group.
fn group_tiles(tiles: &Vec<SkyboxTile>) -> (r: Vec<SkyboxGroup>)
    ensures
        prefixes_of(r@) == group_prefixes(views_of_tiles(tiles@)),
        forall|gi: int|
            0 <= gi < r@.len() ==> views_of_tiles(#[trigger] r@[gi].tiles@) == tiles_with_prefix(
                views_of_tiles(tiles@),
                prefixes_of(r@)[gi],
            ),
{
    let ghost ts = views_of_tiles(tiles@);
    let mut groups: Vec<SkyboxGroup> = Vec::new();
    proof {
        assert(ts.subrange(0, 0) =~= Seq::<SkyboxTileView>::empty());
        assert(prefixes_of(groups@) =~= group_prefixes(ts.subrange(0, 0)));
    }
    let mut i: usize = 0;
    while i < tiles.len()
        invariant
            i <= tiles@.len(),
            ts == views_of_tiles(tiles@),
            prefixes_of(groups@) == group_prefixes(ts.subrange(0, i as int)),
            forall|gi: int|
                0 <= gi < groups@.len() ==> views_of_tiles(#[trigger] groups@[gi].tiles@)
                    == tiles_with_prefix(ts.subrange(0, i as int), prefixes_of(groups@)[gi]),
        decreases tiles@.len() - i,
    {
        let t = tiles[i].clone();
        let ghost sub = ts.subrange(0, i as int);
        let ghost sub1 = ts.subrange(0, i + 1);
        let ghost og = groups@;
        proof {
            assert(sub1.drop_last() =~= sub);
            assert(sub1.last() == ts[i as int]);
            assert(ts[i as int] == t@);
            lemma_group_prefixes_nodup(sub);
        }
        let slot = find_group(&groups, t.prefix());
        match slot {
            Some(g) => {
                let mut grp = groups.remove(g);
                grp.tiles.push(t);
                let ghost new_grp = grp;
                groups.insert(g, grp);
                proof {
                    assert(groups@ =~= og.update(g as int, new_grp));
                    assert(prefixes_of(groups@) =~= prefixes_of(og));
                    assert(prefixes_of(og).contains(og[g as int].prefix@)) by {
                        assert(prefixes_of(og)[g as int] == og[g as int].prefix@);
                    }
                    assert(group_prefixes(sub1) == group_prefixes(sub));
                    assert forall|gi: int| 0 <= gi < groups@.len() implies views_of_tiles(
                        #[trigger] groups@[gi].tiles@,
                    ) == tiles_with_prefix(sub1, prefixes_of(groups@)[gi]) by {
                        if gi == g {
                            assert(views_of_tiles(new_grp.tiles@) =~= views_of_tiles(
                                og[g as int].tiles@,
                            ).push(ts[i as int]));
                        } else {
                            assert(prefixes_of(og)[gi] != prefixes_of(og)[g as int]);
                            assert(groups@[gi].prefix@ != ts[i as int].prefix);
                        }
                    }
                }
            },
            None => {
                let key = t.prefix().to_owned();
                let mut only: Vec<SkyboxTile> = Vec::new();
                only.push(t);
                groups.push(SkyboxGroup { prefix: key, tiles: only });
                proof {
                    assert(!group_prefixes(sub).contains(ts[i as int].prefix)) by {
                        if group_prefixes(sub).contains(ts[i as int].prefix) {
                            let w = choose|w: int|
                                0 <= w < group_prefixes(sub).len() && group_prefixes(sub)[w]
                                    == ts[i as int].prefix;
                            assert(prefixes_of(og)[w] == ts[i as int].prefix);
                        }
                    }
                    assert(prefixes_of(groups@) =~= prefixes_of(og).push(ts[i as int].prefix));
                    lemma_absent_prefix_empty(sub, ts[i as int].prefix);
                    assert forall|gi: int| 0 <= gi < groups@.len() implies views_of_tiles(
                        #[trigger] groups@[gi].tiles@,
                    ) == tiles_with_prefix(sub1, prefixes_of(groups@)[gi]) by {
                        if gi == groups@.len() - 1 {
                            assert(tiles_with_prefix(sub, ts[i as int].prefix) =~= Seq::<
                                SkyboxTileView,
                            >::empty());
                            assert(views_of_tiles(groups@[gi].tiles@) =~= Seq::<
                                SkyboxTileView,
                            >::empty().push(ts[i as int]));
                        } else {
                            assert(groups@[gi].prefix@ != ts[i as int].prefix);
                        }
                    }
                }
            },
        }
        i = i + 1;
    }
    proof {
        assert(ts.subrange(0, tiles@.len() as int) =~= ts);
    }
    groups
}

/// Classifies every candidate path and groups the resulting tiles, keeping
/// only the groups that are valid for composition. Each excluded group is
/// reported with the faces it lacks. Fails only when no path classified as a
/// tile at all.
pub fn get_skyboxes(paths: Vec<String>) -> (r: Result<GroupingResult, GroupingError>)
    ensures
        grouping_post(paths@, r),
{
    let tiles = classify_paths(&paths);
    let ghost ts = classified_views(path_views(paths@));
    if tiles.is_empty() {
        return Err(GroupingError::NoClassifiableTiles);
    }
    let mut groups = group_tiles(&tiles);
    let n_groups = groups.len();
    let ghost gs0 = groups@;
    proof {
        assert(n_groups == gs0.len());
    }
    let ghost ps = prefixes_of(gs0);
    let ghost total = gs0.len();
    let mut valid: Vec<SkyboxGroup> = Vec::new();
    let mut skipped: Vec<SkippedGroup> = Vec::new();
    let mut done: usize = 0;
    proof {
        assert(ps.subrange(0, 0) =~= Seq::<Seq<char>>::empty());
        assert(prefixes_of(valid@) =~= complete_filter(ts, ps.subrange(0, 0)));
        assert(skipped_prefixes_of(skipped@) =~= incomplete_filter(ts, ps.subrange(0, 0)));
        assert(gs0.subrange(0, total as int) =~= gs0);
    }
    while groups.len() > 0
        invariant
            done + groups@.len() == total,
            total == gs0.len(),
            total <= usize::MAX,
            groups@ == gs0.subrange(done as int, total as int),
            ps == prefixes_of(gs0),
            ps == group_prefixes(ts),
            forall|gi: int|
                0 <= gi < total ==> views_of_tiles(#[trigger] gs0[gi].tiles@) == tiles_with_prefix(
                    ts,
                    ps[gi],
                ),
            prefixes_of(valid@) == complete_filter(ts, ps.subrange(0, done as int)),
            forall|i: int|
                0 <= i < valid@.len() ==> views_of_tiles(#[trigger] valid@[i].tiles@)
                    == tiles_with_prefix(ts, prefixes_of(valid@)[i]),
            forall|i: int|
                0 <= i < valid@.len() ==> complete_set(
                    tiles_with_prefix(ts, #[trigger] prefixes_of(valid@)[i]),
                ),
            skipped_prefixes_of(skipped@) == incomplete_filter(ts, ps.subrange(0, done as int)),
            forall|i: int|
                0 <= i < skipped@.len() ==> #[trigger] skipped@[i].missing@ == missing_faces_of(
                    tiles_with_prefix(ts, skipped_prefixes_of(skipped@)[i]),
                ),
        decreases groups@.len(),
    {
        let ghost og = groups@;
        let g = groups.remove(0);
        proof {
            assert(og[0] == gs0[done as int]);
            assert(groups@ =~= gs0.subrange(done as int + 1, total as int));
        }
        let ghost p = g.prefix@;
        let ghost gtv = tiles_with_prefix(ts, p);
        let m = missing_faces(&g.tiles);
        let is_complete = g.tiles.len() == 6 && m.len() == 0;
        proof {
            assert(views_of_tiles(g.tiles@) == gtv);
            assert(views_of_tiles(g.tiles@).len() == g.tiles@.len());
            lemma_faces_missing_empty(gtv, all_faces());
            lemma_all_faces_exhaustive();
            if m@.len() == 0 {
                assert forall|f: SkyboxTilePosition| has_face(gtv, f) by {
                    assert(all_faces().contains(f));
                    let j = choose|j: int| 0 <= j < all_faces().len() && all_faces()[j] == f;
                    assert(has_face(gtv, all_faces()[j]));
                }
            } else {
                assert(!(forall|j: int|
                    0 <= j < all_faces().len() ==> has_face(gtv, #[trigger] all_faces()[j])));
            }
            assert(is_complete == complete_set(gtv));
        }
        let ghost old_valid = valid@;
        let ghost old_skipped = skipped@;
        if is_complete {
            valid.push(g);
        } else {
            skipped.push(SkippedGroup { prefix: g.prefix, missing: m });
        }
        proof {
            let sub1 = ps.subrange(0, done as int + 1);
            assert(sub1.drop_last() =~= ps.subrange(0, done as int));
            assert(sub1.last() == ps[done as int]);
            assert(ps[done as int] == p);
            if is_complete {
                assert(prefixes_of(valid@) =~= prefixes_of(old_valid).push(p));
                assert(skipped_prefixes_of(skipped@) == skipped_prefixes_of(old_skipped));
            } else {
                assert(skipped_prefixes_of(skipped@) =~= skipped_prefixes_of(old_skipped).push(p));
                assert(prefixes_of(valid@) == prefixes_of(old_valid));
            }
        }
        done = done + 1;
    }
    proof {
        assert(ps.subrange(0, total as int) =~= ps);
    }
    Ok(GroupingResult { valid, skipped })
}

} // verus!
