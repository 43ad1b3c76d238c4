//! Classification of one candidate file path into a typed skybox tile.
//!
//! A tile file is named `<prefix><face>.<ext>`, where `<face>` is one of six
//! literal lowercase face words. The classifier strips the face word together
//! with the extension to obtain the group key shared by the six tiles of one
//! skybox. A name that matches no face word is not a tile; that is a silent
//! rejection, not an error.

use vstd::prelude::*;

verus! {

/// The six faces of a skybox cube, in the order in which classification
/// tries their filename suffixes (the first matching face wins).
#[derive(Clone, Copy, Debug, PartialEq, Eq, Structural)]
pub enum SkyboxTilePosition {
    Left,
    Right,
    Up,
    Down,
    Front,
    Back,
}

/// The filename suffix word that marks a tile as one face.
pub open spec fn suffix_chars(pos: SkyboxTilePosition) -> Seq<char> {
    match pos {
        SkyboxTilePosition::Left => seq!['l', 'e', 'f', 't'],
        SkyboxTilePosition::Right => seq!['r', 'i', 'g', 'h', 't'],
        SkyboxTilePosition::Up => seq!['u', 'p'],
        SkyboxTilePosition::Down => seq!['d', 'o', 'w', 'n'],
        SkyboxTilePosition::Front => seq!['f', 'r', 'o', 'n', 't'],
        SkyboxTilePosition::Back => seq!['b', 'a', 'c', 'k'],
    }
}

/// All six faces, in classification order.
pub open spec fn all_faces() -> Seq<SkyboxTilePosition> {
    seq![
        SkyboxTilePosition::Left,
        SkyboxTilePosition::Right,
        SkyboxTilePosition::Up,
        SkyboxTilePosition::Down,
        SkyboxTilePosition::Front,
        SkyboxTilePosition::Back,
    ]
}

/// The largest index at which `c` occurs in `s`, if it occurs at all.
pub open spec fn last_index_of(s: Seq<char>, c: char) -> Option<int>
    decreases s.len(),
{
    if s.len() == 0 {
        None
    } else if s.last() == c {
        Some(s.len() - 1)
    } else {
        last_index_of(s.drop_last(), c)
    }
}

pub proof fn lemma_last_index_of_props(s: Seq<char>, c: char)
    ensures
        match last_index_of(s, c) {
            Some(i) => 0 <= i < s.len() && s[i] == c && (forall|j: int|
                i < j < s.len() ==> s[j] != c),
            None => forall|j: int| 0 <= j < s.len() ==> s[j] != c,
        },
    decreases s.len(),
{
    if s.len() == 0 {
    } else if s.last() == c {
    } else {
        lemma_last_index_of_props(s.drop_last(), c);
        assert(forall|j: int| 0 <= j < s.len() - 1 ==> s.drop_last()[j] == s[j]);
    }
}

/// The index of the dot that separates the extension, following the usual
/// file-name convention: the final dot, unless it is the leading character
/// (a name such as `.png` has no extension).
pub open spec fn dot_index(name: Seq<char>) -> Option<int> {
    match last_index_of(name, '.') {
        Some(i) => if i >= 1 {
            Some(i)
        } else {
            None
        },
        None => None,
    }
}

/// `name` up to position `end` ends with the word `sfx`.
pub open spec fn suffix_at(name: Seq<char>, end: int, sfx: Seq<char>) -> bool {
    &&& sfx.len() <= end <= name.len()
    &&& name.subrange(end - sfx.len(), end) == sfx
}

/// The naming test: the whole name ends with `<face>.<ext>` where `<ext>` is
/// everything after the final dot. Since the name always ends with `.<ext>`,
/// this is the same as asking whether the stem before the dot ends with the
/// face word.
pub open spec fn stem_ends_with(name: Seq<char>, dot: int, pos: SkyboxTilePosition) -> bool {
    suffix_at(name, dot, suffix_chars(pos))
}

/// Classification of a file name whose extension dot stands at `dot`: the
/// first face word (in `all_faces()` order) that the stem ends with, paired
/// with the group key, the name with the face word and the extension removed.
pub open spec fn classify_at(name: Seq<char>, dot: int) -> Option<(SkyboxTilePosition, Seq<
    char,
>)> {
    if stem_ends_with(name, dot, SkyboxTilePosition::Left) {
        Some((SkyboxTilePosition::Left, name.subrange(0, dot - 4)))
    } else if stem_ends_with(name, dot, SkyboxTilePosition::Right) {
        Some((SkyboxTilePosition::Right, name.subrange(0, dot - 5)))
    } else if stem_ends_with(name, dot, SkyboxTilePosition::Up) {
        Some((SkyboxTilePosition::Up, name.subrange(0, dot - 2)))
    } else if stem_ends_with(name, dot, SkyboxTilePosition::Down) {
        Some((SkyboxTilePosition::Down, name.subrange(0, dot - 4)))
    } else if stem_ends_with(name, dot, SkyboxTilePosition::Front) {
        Some((SkyboxTilePosition::Front, name.subrange(0, dot - 5)))
    } else if stem_ends_with(name, dot, SkyboxTilePosition::Back) {
        Some((SkyboxTilePosition::Back, name.subrange(0, dot - 4)))
    } else {
        None
    }
}

/// Classification of one file name: `None` when the name has no extension or
/// matches no face word.
pub open spec fn classify_name(name: Seq<char>) -> Option<(SkyboxTilePosition, Seq<char>)> {
    match dot_index(name) {
        Some(i) => classify_at(name, i),
        None => None,
    }
}

/// The component of a path after the final separator.
pub open spec fn base_name_of(path: Seq<char>) -> Seq<char> {
    match last_index_of(path, '/') {
        Some(i) => path.subrange(i + 1, path.len() as int),
        None => path,
    }
}

/// Classification of one candidate path: the face and group key of its file
/// name, or `None` when the file name is not a tile name.
pub open spec fn tile_of_path(path: Seq<char>) -> Option<(SkyboxTilePosition, Seq<char>)> {
    classify_name(base_name_of(path))
}

/// The mathematical content of one classified tile.
pub ghost struct SkyboxTileView {
    pub path: Seq<char>,
    pub prefix: Seq<char>,
    pub position: SkyboxTilePosition,
}

/// A classified tile always records exactly what classification of its path
/// yields.
pub open spec fn tile_wf(t: SkyboxTileView) -> bool {
    tile_of_path(t.path) == Some((t.position, t.prefix))
}

/// One classified input file: its path, the group key derived from its file
/// name, and the face it covers. Immutable after construction.
#[derive(Debug)]
pub struct SkyboxTile {
    path: String,
    prefix: String,
    position: SkyboxTilePosition,
}

impl View for SkyboxTile {
    type V = SkyboxTileView;

    closed spec fn view(&self) -> SkyboxTileView {
        SkyboxTileView { path: self.path@, prefix: self.prefix@, position: self.position }
    }
}

impl Clone for SkyboxTile {
    fn clone(&self) -> (r: Self)
        ensures
            r@ == self@,
    {
        SkyboxTile {
            path: self.path.clone(),
            prefix: self.prefix.clone(),
            position: self.position,
        }
    }
}

impl PartialEq for SkyboxTile {
    fn eq(&self, other: &SkyboxTile) -> (r: bool) {
        self.path == other.path && self.prefix == other.prefix && self.position == other.position
    }
}

impl vstd::std_specs::cmp::PartialEqSpecImpl for SkyboxTile {
    open spec fn obeys_eq_spec() -> bool {
        true
    }

    open spec fn eq_spec(&self, other: &SkyboxTile) -> bool {
        self@ == other@
    }
}

/// The converse of `lemma_last_index_of_props`: an occurrence with nothing
/// after it is the last occurrence.
pub proof fn lemma_last_index_of_witness(s: Seq<char>, c: char, i: int)
    requires
        0 <= i < s.len(),
        s[i] == c,
        forall|j: int| i < j < s.len() ==> s[j] != c,
    ensures
        last_index_of(s, c) == Some(i),
    decreases s.len(),
{
    if i == s.len() - 1 {
    } else {
        assert(s.last() != c);
        assert(forall|j: int| 0 <= j < s.len() - 1 ==> s.drop_last()[j] == s[j]);
        lemma_last_index_of_witness(s.drop_last(), c, i);
    }
}

/// The canonical extension of a tile file name.
pub open spec fn png_ext() -> Seq<char> {
    seq!['.', 'p', 'n', 'g']
}

/// The canonical file name of the tile of face `pos` in the group `p`.
pub open spec fn canonical_name(p: Seq<char>, pos: SkyboxTilePosition) -> Seq<char> {
    p + suffix_chars(pos) + png_ext()
}

/// No two distinct face words end a stem at the same position: the last two
/// characters of the six words form pairwise distinct pairs, so classification
/// does not depend on the order in which the words are tried.
pub proof fn lemma_face_suffix_unique(
    name: Seq<char>,
    dot: int,
    a: SkyboxTilePosition,
    b: SkyboxTilePosition,
)
    requires
        stem_ends_with(name, dot, a),
        stem_ends_with(name, dot, b),
    ensures
        a == b,
{
    let sa = suffix_chars(a);
    let sb = suffix_chars(b);
    assert(sa.len() >= 2);
    assert(sb.len() >= 2);
    assert(sa[sa.len() - 1] == name[dot - 1]) by {
        assert(name.subrange(dot - sa.len(), dot)[sa.len() - 1] == name[dot - 1]);
    }
    assert(sa[sa.len() - 2] == name[dot - 2]) by {
        assert(name.subrange(dot - sa.len(), dot)[sa.len() - 2] == name[dot - 2]);
    }
    assert(sb[sb.len() - 1] == name[dot - 1]) by {
        assert(name.subrange(dot - sb.len(), dot)[sb.len() - 1] == name[dot - 1]);
    }
    assert(sb[sb.len() - 2] == name[dot - 2]) by {
        assert(name.subrange(dot - sb.len(), dot)[sb.len() - 2] == name[dot - 2]);
    }
}

/// Classification of a canonical tile file name: the face of its suffix word
/// and the group key it was built from.
pub proof fn lemma_classify_canonical(p: Seq<char>, pos: SkyboxTilePosition)
    requires
        forall|j: int| 0 <= j < p.len() ==> p[j] != '/',
    ensures
        tile_of_path(canonical_name(p, pos)) == Some((pos, p)),
        canonical_name(p, pos).len() == p.len() + suffix_chars(pos).len() + 4,
{
    let name = canonical_name(p, pos);
    let sfx = suffix_chars(pos);
    let dot = (p.len() + sfx.len()) as int;
    assert(forall|t: int| 0 <= t < sfx.len() ==> #[trigger] sfx[t] != '/' && sfx[t] != '.');
    assert(name.len() == p.len() + sfx.len() + 4);
    assert(forall|j: int| 0 <= j < p.len() ==> name[j] == p[j]);
    assert(forall|t: int| 0 <= t < sfx.len() ==> name[p.len() + t] == sfx[t]);
    assert(name[dot] == '.' && name[dot + 1] == 'p' && name[dot + 2] == 'n' && name[dot + 3]
        == 'g');
    assert(forall|j: int| 0 <= j < name.len() ==> name[j] != '/') by {
        assert(forall|t: int|
            0 <= t < sfx.len() ==> name[p.len() + t] == #[trigger] sfx[t] && sfx[t] != '/');
    }
    lemma_last_index_of_props(name, '/');
    if last_index_of(name, '/') is Some {
        let i = last_index_of(name, '/')->0;
        assert(name[i] != '/');
        assert(false);
    }
    assert(base_name_of(name) == name);
    lemma_last_index_of_witness(name, '.', dot);
    assert(dot_index(name) == Some(dot));
    assert(name.subrange(dot - sfx.len(), dot) =~= sfx);
    assert(stem_ends_with(name, dot, pos));
    assert forall|e: SkyboxTilePosition| stem_ends_with(name, dot, e) implies e == pos by {
        lemma_face_suffix_unique(name, dot, e, pos);
    }
    assert(name.subrange(0, dot - sfx.len()) =~= p);
    assert(classify_at(name, dot) == Some((pos, p)));
}

/// The largest index at which `c` occurs in `s`.
fn last_index_of_char(s: &str, c: char) -> (r: Option<usize>)
    ensures
        match r {
            Some(i) => last_index_of(s@, c) == Some(i as int),
            None => last_index_of(s@, c) is None,
        },
{
    let n = s.unicode_len();
    let mut j = n;
    proof {
        assert(s@.subrange(0, n as int) =~= s@);
    }
    while j > 0
        invariant
            j <= n,
            n == s@.len(),
            last_index_of(s@, c) == last_index_of(s@.subrange(0, j as int), c),
        decreases j,
    {
        let ch = s.get_char(j - 1);
        if ch == c {
            proof {
                assert(s@.subrange(0, j as int).last() == c);
            }
            return Some(j - 1);
        }
        proof {
            assert(s@.subrange(0, j as int).drop_last() =~= s@.subrange(0, j as int - 1));
        }
        j = j - 1;
    }
    proof {
        assert(s@.subrange(0, 0).len() == 0);
    }
    None
}

/// Whether `name` up to position `end` ends with the word `sfx`.
fn ends_at(name: &str, end: usize, sfx: &Vec<char>) -> (r: bool)
    requires
        end <= name@.len(),
    ensures
        r == suffix_at(name@, end as int, sfx@),
{
    let m = sfx.len();
    if end < m {
        return false;
    }
    let start = end - m;
    let mut k: usize = 0;
    while k < m
        invariant
            m == sfx@.len(),
            start == end - m,
            end <= name@.len(),
            k <= m,
            forall|t: int| 0 <= t < k ==> name@[start + t] == sfx@[t],
        decreases m - k,
    {
        if name.get_char(start + k) != sfx[k] {
            proof {
                assert(name@.subrange(start as int, end as int)[k as int] == name@[start + k]);
                assert(name@.subrange(start as int, end as int) != sfx@);
            }
            return false;
        }
        k = k + 1;
    }
    proof {
        assert(name@.subrange(start as int, end as int) =~= sfx@);
    }
    true
}

/// The face word for `pos`, as characters.
fn suffix_vec(pos: SkyboxTilePosition) -> (r: Vec<char>)
    ensures
        r@ == suffix_chars(pos),
{
    match pos {
        SkyboxTilePosition::Left => vec!['l', 'e', 'f', 't'],
        SkyboxTilePosition::Right => vec!['r', 'i', 'g', 'h', 't'],
        SkyboxTilePosition::Up => vec!['u', 'p'],
        SkyboxTilePosition::Down => vec!['d', 'o', 'w', 'n'],
        SkyboxTilePosition::Front => vec!['f', 'r', 'o', 'n', 't'],
        SkyboxTilePosition::Back => vec!['b', 'a', 'c', 'k'],
    }
}

impl SkyboxTile {
    /// Classifies one candidate path. Returns the tile, or `None` when the
    /// file name does not match the naming convention.
    pub fn from_file(path: String) -> (r: Option<SkyboxTile>)
        ensures
            match r {
                Some(t) => {
                    &&& tile_of_path(path@) == Some((t@.position, t@.prefix))
                    &&& t@.path == path@
                    &&& tile_wf(t@)
                },
                None => tile_of_path(path@) is None,
            },
    {
        let n = path.as_str().unicode_len();
        let start = match last_index_of_char(path.as_str(), '/') {
            Some(i) => {
                proof {
                    lemma_last_index_of_props(path@, '/');
                }
                i + 1
            },
            None => 0,
        };
        let file_name = path.as_str().substring_char(start, n);
        proof {
            if last_index_of(path@, '/') is None {
                assert(path@.subrange(0, n as int) =~= path@);
            }
            assert(file_name@ == base_name_of(path@));
        }
        match Self::get_position_and_prefix(file_name) {
            Some(pp) => {
                let (position, prefix) = pp;
                Some(SkyboxTile { path, prefix, position })
            },
            None => None,
        }
    }

    /// The group key shared by the six tiles of this tile's skybox.
    pub fn prefix(&self) -> (r: &str)
        ensures
            r@ == self@.prefix,
    {
        self.prefix.as_str()
    }

    /// The path this tile was classified from, used later to read and,
    /// optionally, delete the file.
    pub fn path(&self) -> (r: &str)
        ensures
            r@ == self@.path,
    {
        self.path.as_str()
    }

    /// The face this tile covers.
    pub fn position(&self) -> (r: &SkyboxTilePosition)
        ensures
            *r == self@.position,
    {
        &self.position
    }

    /// Splits a file name into the matched face and the group key, trying the
    /// six face words in `all_faces()` order; the first match wins.
    pub fn get_position_and_prefix(file_name: &str) -> (r: Option<(SkyboxTilePosition, String)>)
        ensures
            match r {
                Some(pp) => classify_name(file_name@) == Some((pp.0, pp.1@)),
                None => classify_name(file_name@) is None,
            },
    {
        let dot = match last_index_of_char(file_name, '.') {
            Some(i) => i,
            None => {
                return None;
            },
        };
        if dot == 0 {
            return None;
        }
        proof {
            lemma_last_index_of_props(file_name@, '.');
        }
        let faces = [
            SkyboxTilePosition::Left,
            SkyboxTilePosition::Right,
            SkyboxTilePosition::Up,
            SkyboxTilePosition::Down,
            SkyboxTilePosition::Front,
            SkyboxTilePosition::Back,
        ];
        let mut f: usize = 0;
        while f < 6
            invariant
                f <= 6,
                dot_index(file_name@) == Some(dot as int),
                dot <= file_name@.len(),
                faces@ == all_faces(),
                forall|g: int| 0 <= g < f ==> !stem_ends_with(file_name@, dot as int, faces@[g]),
            decreases 6 - f,
        {
            let pos = faces[f];
            let sfx = suffix_vec(pos);
            if ends_at(file_name, dot, &sfx) {
                let prefix_str = file_name.substring_char(0, dot - sfx.len());
                let prefix = prefix_str.to_owned();
                return Some((pos, prefix));
            }
            f = f + 1;
        }
        None
    }

    /// The name of the composite image written for the group `prefix`.
    pub fn result_file_name(prefix: &str) -> (r: String)
        ensures
            r@ == prefix@ + "skybox.png"@,
    {
        let s = String::from_str(prefix);
        s.concat("skybox.png")
    }
}

} // verus!
