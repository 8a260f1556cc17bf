//! Where a part definition's mesh path points.
//!
//! Authors have written both `"fueltank_1.glb"` and `"assets/parts/engine_spark.glb"`.
//! The first is what the format means — the file next to the definition; the second is a
//! path written from the repository root out of habit. Both must land in the same place
//! rather than one of them silently failing to load.

use vstd::prelude::*;
use vstd::string::{StrSliceExecFns, StringExecFns};

use crate::text::same_text;

verus! {

/// The prefix a path written from the repository root starts with.
pub open spec fn assets_prefix() -> Seq<char> {
    seq!['a', 's', 's', 'e', 't', 's', '/']
}

/// `path` without its leading slashes.
pub open spec fn without_leading_slashes(path: Seq<char>) -> Seq<char>
    decreases path.len(),
{
    if path.len() > 0 && path[0] == '/' {
        without_leading_slashes(path.drop_first())
    } else {
        path
    }
}

/// `path` without one leading `assets/`.
pub open spec fn without_assets_prefix(path: Seq<char>) -> Seq<char> {
    if path.len() >= 7 && path.subrange(0, 7) == assets_prefix() {
        path.subrange(7, path.len() as int)
    } else {
        path
    }
}

/// The mesh path `path`, declared in a definition file in `asset_dir`, relative to the
/// asset root.
///
/// Leading slashes and one leading `assets/` are dropped. What remains is taken as written
/// from the asset root if it has a separator (or there is no directory to resolve against),
/// and as a file next to the definition otherwise.
pub open spec fn resolved_asset_path(path: Seq<char>, asset_dir: Seq<char>) -> Seq<char> {
    let p = without_assets_prefix(without_leading_slashes(path));
    if p.contains('/') || asset_dir.len() == 0 {
        p
    } else {
        asset_dir + seq!['/'] + p
    }
}

proof fn lemma_strip_slashes(path: Seq<char>, start: int)
    requires
        0 <= start <= path.len(),
        forall|k: int| 0 <= k < start ==> path[k] == '/',
        start == path.len() || path[start] != '/',
    ensures
        without_leading_slashes(path) == path.subrange(start, path.len() as int),
    decreases start,
{
    if start == 0 {
        assert(path.subrange(0, path.len() as int) =~= path);
    } else {
        let rest = path.drop_first();
        assert forall|k: int| 0 <= k < start - 1 implies rest[k] == '/' by {
            assert(rest[k] == path[k + 1]);
        }
        if start - 1 < rest.len() {
            assert(rest[start - 1] == path[start]);
        }
        lemma_strip_slashes(rest, start - 1);
        assert(rest.subrange(start - 1, rest.len() as int) =~= path.subrange(start, path.len() as int));
    }
}

/// The literal `assets/`, spelled out so laws do not lean on [`assets_prefix`].
pub open spec fn assets_slash() -> Seq<char> {
    seq!['a', 's', 's', 'e', 't', 's', '/']
}

/// Law: a path written from the asset root — one with a separator, no leading slash and no
/// `assets/` prefix — is taken exactly as written, whatever directory its definition is in.
pub proof fn lemma_rooted_paths_are_taken_as_written(path: Seq<char>, asset_dir: Seq<char>)
    requires
        path.contains('/'),
        path.len() > 0 ==> path[0] != '/',
        !(path.len() >= 7 && path.subrange(0, 7) == assets_slash()),
    ensures
        resolved_asset_path(path, asset_dir) == path,
{
    assert(assets_slash() =~= assets_prefix());
    assert(without_leading_slashes(path) == path);
}

/// Law: a path written from the repository root has its one `assets/` dropped and is then
/// taken as written, whatever directory its definition is in.
pub proof fn lemma_repository_paths_drop_assets(rest: Seq<char>, asset_dir: Seq<char>)
    requires
        rest.contains('/'),
    ensures
        resolved_asset_path(assets_slash() + rest, asset_dir) == rest,
{
    let path = assets_slash() + rest;
    assert(path[0] == 'a');
    assert(without_leading_slashes(path) == path);
    assert(path.subrange(0, 7) =~= assets_prefix());
    assert(path.subrange(7, path.len() as int) =~= rest);
}

/// Law: leading slashes change nothing.
pub proof fn lemma_leading_slash_is_ignored(path: Seq<char>, asset_dir: Seq<char>)
    ensures
        resolved_asset_path(seq!['/'] + path, asset_dir) == resolved_asset_path(path, asset_dir),
{
    let p = seq!['/'] + path;
    assert(p.drop_first() =~= path);
}

/// Law: a bare file name — one with no separator — lands next to its definition, or stays
/// bare when there is no directory to put it in.
pub proof fn lemma_bare_names_land_next_to_their_definition(file: Seq<char>, asset_dir: Seq<char>)
    requires
        !file.contains('/'),
    ensures
        asset_dir.len() > 0 ==> resolved_asset_path(file, asset_dir) == asset_dir + seq!['/'] + file,
        asset_dir.len() == 0 ==> resolved_asset_path(file, asset_dir) == file,
{
    if file.len() > 0 && file[0] == '/' {
        assert(file.contains('/'));
    }
    assert(without_leading_slashes(file) == file);
    if file.len() >= 7 && file.subrange(0, 7) == assets_prefix() {
        assert(file[6] == file.subrange(0, 7)[6]);
        assert(file.contains('/'));
    }
}

/// Law: both ways authors spell a mesh path land in the same place. A bare file name in a
/// definition file in `asset_dir`, and the same file written from the repository root as
/// `assets/<asset_dir>/<file>`, resolve to the same asset.
pub proof fn lemma_both_spellings_agree(file: Seq<char>, asset_dir: Seq<char>)
    requires
        !file.contains('/'),
        asset_dir.len() > 0,
    ensures
        resolved_asset_path(file, asset_dir) == resolved_asset_path(
            assets_prefix() + asset_dir + seq!['/'] + file,
            asset_dir,
        ),
{
    let rooted = assets_prefix() + asset_dir + seq!['/'] + file;
    let placed = asset_dir + seq!['/'] + file;
    if file.len() > 0 && file[0] == '/' {
        assert(file.contains('/'));
    }
    assert(without_leading_slashes(file) == file);
    if file.len() >= 7 && file.subrange(0, 7) == assets_prefix() {
        assert(file[6] == file.subrange(0, 7)[6]);
        assert(file.contains('/'));
    }
    assert(rooted[0] == 'a');
    assert(without_leading_slashes(rooted) == rooted);
    assert(rooted.subrange(0, 7) =~= assets_prefix());
    assert(rooted.subrange(7, rooted.len() as int) =~= placed);
    assert(placed[asset_dir.len() as int] == '/');
    assert(placed.contains('/'));
}

/// Whether `s` holds the character `c`.
fn has_char(s: &str, c: char) -> (found: bool)
    ensures
        found == s@.contains(c),
{
    let n = s.unicode_len();
    let mut i: usize = 0;
    while i < n
        invariant
            n == s@.len(),
            i <= n,
            forall|j: int| 0 <= j < i ==> #[trigger] s@[j] != c,
        decreases n - i,
    {
        if s.get_char(i) == c {
            return true;
        }
        i += 1;
    }
    false
}

/// Resolves a mesh path against the definition file's own directory.
pub fn resolve_asset_path(path: &str, asset_dir: &str) -> (resolved: String)
    ensures
        resolved@ == resolved_asset_path(path@, asset_dir@),
{
    let n = path.unicode_len();
    let mut start: usize = 0;
    while start < n && path.get_char(start) == '/'
        invariant
            n == path@.len(),
            start <= n,
            forall|k: int| 0 <= k < start ==> path@[k] == '/',
        decreases n - start,
    {
        start += 1;
    }
    proof {
        lemma_strip_slashes(path@, start as int);
    }
    let trimmed = path.substring_char(start, n);
    let m = trimmed.unicode_len();
    let mut stripped = trimmed;
    if m >= 7 {
        let head = trimmed.substring_char(0, 7);
        proof {
            reveal_strlit("assets/");
        }
        if same_text(head, "assets/") {
            stripped = trimmed.substring_char(7, m);
        }
        proof {
            assert("assets/"@ =~= assets_prefix());
        }
    }
    if has_char(stripped, '/') || asset_dir.unicode_len() == 0 {
        stripped.to_owned()
    } else {
        let mut out = asset_dir.to_owned();
        out.append("/");
        out.append(stripped);
        proof {
            reveal_strlit("/");
            assert(out@ =~= asset_dir@ + seq!['/'] + stripped@);
        }
        out
    }
}

} // verus!
