use vstd::prelude::*;
use crate::locate::{
    candidates, clash, first_duplicate, first_invalid, has_extension, located, name_version,
    well_named, DiscoveryError, MigrationFile, MigrationType,
};

verus! {

/// Where some candidate is not well formed, a first such candidate exists.
proof fn lemma_some_first_invalid(c: Seq<Seq<char>>, ext: Seq<char>, i: int)
    requires
        0 <= i < c.len(),
        !well_named(c[i], ext),
    ensures
        exists|k: int| first_invalid(c, ext, k),
    decreases i,
{
    if exists|j: int| 0 <= j < i && !well_named(c[j], ext) {
        let j = choose|j: int| 0 <= j < i && !well_named(c[j], ext);
        lemma_some_first_invalid(c, ext, j);
    } else {
        assert(first_invalid(c, ext, i));
    }
}

/// Where two candidates clash, a first candidate with an earlier clash exists.
proof fn lemma_some_first_duplicate(c: Seq<Seq<char>>, ext: Seq<char>, i: int, j: int)
    requires
        clash(c, ext, i, j),
    ensures
        exists|k: int| first_duplicate(c, ext, k),
    decreases j,
{
    if exists|a: int, b: int| b < j && clash(c, ext, a, b) {
        let (a, b) = choose|a: int, b: int| b < j && clash(c, ext, a, b);
        lemma_some_first_duplicate(c, ext, a, b);
    } else {
        assert(first_duplicate(c, ext, j));
    }
}

/// Selecting the names with an extension a second time changes nothing.
pub proof fn lemma_candidates_idempotent(names: Seq<Seq<char>>, ext: Seq<char>)
    ensures
        candidates(candidates(names, ext), ext) == candidates(names, ext),
    decreases names.len(),
{
    if names.len() > 0 {
        let rest = candidates(names.drop_last(), ext);
        lemma_candidates_idempotent(names.drop_last(), ext);
        if has_extension(names.last(), ext) {
            assert(rest.push(names.last()).drop_last() =~= rest);
        }
    }
}

/// Where every name with the kind's extension is well formed and no two of them
/// share a version, discovery succeeds with one file per such name, in strictly
/// increasing order of version.
pub proof fn valid_listing_is_ordered(
    names: Seq<Seq<char>>,
    kind: MigrationType,
    r: Result<Vec<MigrationFile>, DiscoveryError>,
)
    requires
        located(Some(names), kind, r),
        forall|k: int|
            0 <= k < candidates(names, kind.spec_extension()).len() ==> well_named(
                #[trigger] candidates(names, kind.spec_extension())[k],
                kind.spec_extension(),
            ),
        forall|i: int, j: int|
            0 <= i < j < candidates(names, kind.spec_extension()).len() ==> name_version(
                #[trigger] candidates(names, kind.spec_extension())[i],
                kind.spec_extension(),
            ) != name_version(
                #[trigger] candidates(names, kind.spec_extension())[j],
                kind.spec_extension(),
            ),
    ensures
        r is Ok,
        r->Ok_0@.len() == candidates(names, kind.spec_extension()).len(),
        forall|i: int, j: int|
            0 <= i < j < r->Ok_0@.len() ==> #[trigger] r->Ok_0@[i].version
                < #[trigger] r->Ok_0@[j].version,
{
    reveal(located);
    let ext = kind.spec_extension();
    let c = candidates(names, ext);
    assert forall|i: int| !first_invalid(c, ext, i) by {
        if 0 <= i < c.len() {
            assert(well_named(c[i], ext));
        }
    }
    assert forall|j: int| !first_duplicate(c, ext, j) by {
        if first_duplicate(c, ext, j) {
            let i = choose|i: int| clash(c, ext, i, j);
            assert(name_version(c[i], ext) != name_version(c[j], ext));
        }
    }
}

/// Where some name with the kind's extension is not well formed, discovery fails
/// with `InvalidName` and returns no files.
pub proof fn invalid_name_fails(
    names: Seq<Seq<char>>,
    kind: MigrationType,
    r: Result<Vec<MigrationFile>, DiscoveryError>,
    i: int,
)
    requires
        located(Some(names), kind, r),
        0 <= i < candidates(names, kind.spec_extension()).len(),
        !well_named(candidates(names, kind.spec_extension())[i], kind.spec_extension()),
    ensures
        r is Err,
        r->Err_0 is InvalidName,
{
    reveal(located);
    lemma_some_first_invalid(candidates(names, kind.spec_extension()), kind.spec_extension(), i);
}

/// Where every name with the kind's extension is well formed but two of them
/// share a version, discovery fails with `DuplicateVersion`, naming a version
/// that two of them share.
pub proof fn shared_version_fails(
    names: Seq<Seq<char>>,
    kind: MigrationType,
    r: Result<Vec<MigrationFile>, DiscoveryError>,
    i: int,
    j: int,
)
    requires
        located(Some(names), kind, r),
        forall|k: int|
            0 <= k < candidates(names, kind.spec_extension()).len() ==> well_named(
                #[trigger] candidates(names, kind.spec_extension())[k],
                kind.spec_extension(),
            ),
        clash(candidates(names, kind.spec_extension()), kind.spec_extension(), i, j),
    ensures
        r is Err,
        r->Err_0 is DuplicateVersion,
        exists|a: int, b: int|
            #[trigger] clash(candidates(names, kind.spec_extension()), kind.spec_extension(), a, b)
                && r->Err_0->DuplicateVersion_0 as nat == name_version(
                candidates(names, kind.spec_extension())[b],
                kind.spec_extension(),
            ),
{
    reveal(located);
    let ext = kind.spec_extension();
    let c = candidates(names, ext);
    assert forall|k: int| !first_invalid(c, ext, k) by {
        if 0 <= k < c.len() {
            assert(well_named(c[k], ext));
        }
    }
    lemma_some_first_duplicate(c, ext, i, j);
    let b = choose|b: int| first_duplicate(c, ext, b) && r is Err && r->Err_0 is DuplicateVersion
        && r->Err_0->DuplicateVersion_0 as nat == name_version(c[b], ext);
    let a = choose|a: int| clash(c, ext, a, b);
    assert(clash(c, ext, a, b) && r->Err_0->DuplicateVersion_0 as nat == name_version(c[b], ext));
}

/// Names without the kind's extension are ignored: discovery on a listing gives
/// what it gives on the same listing with only the names that have it.
pub proof fn other_extensions_ignored(
    names: Seq<Seq<char>>,
    kind: MigrationType,
    r: Result<Vec<MigrationFile>, DiscoveryError>,
)
    ensures
        located(Some(names), kind, r) == located(
            Some(candidates(names, kind.spec_extension())),
            kind,
            r,
        ),
{
    reveal(located);
    lemma_candidates_idempotent(names, kind.spec_extension());
}

/// A missing directory fails with `InvalidRoot`, and `InvalidRoot` comes from a
/// missing directory only.
pub proof fn invalid_root_only_without_directory(
    listing: Option<Seq<Seq<char>>>,
    kind: MigrationType,
    r: Result<Vec<MigrationFile>, DiscoveryError>,
)
    requires
        located(listing, kind, r),
    ensures
        (r is Err && r->Err_0 is InvalidRoot) <==> listing is None,
{
    reveal(located);
}

} // verus!
