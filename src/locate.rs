use vstd::prelude::*;
use vstd::string::*;
use crate::name::{parse_stem, stem_description, stem_version, valid_stem};

verus! {

/// The two kinds of migration: Rust modules (`.rs`) and SQL scripts (`.sql`).
#[derive(Clone, Copy, Debug, PartialEq, Eq, Structural)]
pub enum MigrationType {
    Mod,
    Sql,
}

impl MigrationType {
    /// The file extension, without its dot, accepted for this kind.
    pub open spec fn spec_extension(self) -> Seq<char> {
        match self {
            MigrationType::Mod => seq!['r', 's'],
            MigrationType::Sql => seq!['s', 'q', 'l'],
        }
    }

    /// The file extension, without its dot, accepted for this kind.
    pub fn extension(self) -> (r: Vec<char>)
        ensures
            r@ == self.spec_extension(),
    {
        match self {
            MigrationType::Mod => vec!['r', 's'],
            MigrationType::Sql => vec!['s', 'q', 'l'],
        }
    }
}

/// A migration file whose name passed validation.
#[derive(Debug)]
pub struct MigrationFile {
    /// The file name as found in the directory, extension included.
    pub file_name: String,
    /// The file stem, `V<version>__<description>`: the migration's name.
    pub name: String,
    pub version: u64,
    pub description: String,
}

/// Why discovery of migration files failed.
#[derive(Debug)]
pub enum DiscoveryError {
    /// The migrations directory is missing or is not a directory.
    InvalidRoot,
    /// A file with the expected extension does not follow the naming grammar.
    InvalidName(String),
    /// Two files carry the same version.
    DuplicateVersion(u64),
    /// The content of a script file could not be read as text.
    UnreadableFile(String),
}

/// `name` ends with `.` and `ext`, and something stands before that dot.
pub open spec fn has_extension(name: Seq<char>, ext: Seq<char>) -> bool {
    &&& name.len() > ext.len() + 1
    &&& name[name.len() - ext.len() - 1] == '.'
    &&& name.subrange(name.len() - ext.len(), name.len() as int) == ext
}

/// The file name without its dot and extension.
pub open spec fn file_stem(name: Seq<char>, ext: Seq<char>) -> Seq<char> {
    name.subrange(0, name.len() - ext.len() - 1)
}

/// The names with the extension `ext`, in the order given.
pub open spec fn candidates(names: Seq<Seq<char>>, ext: Seq<char>) -> Seq<Seq<char>>
    decreases names.len(),
{
    if names.len() == 0 {
        seq![]
    } else {
        let rest = candidates(names.drop_last(), ext);
        if has_extension(names.last(), ext) {
            rest.push(names.last())
        } else {
            rest
        }
    }
}

/// The stem of a candidate follows the grammar and its version fits in a `u64`.
pub open spec fn well_named(name: Seq<char>, ext: Seq<char>) -> bool {
    valid_stem(file_stem(name, ext)) && stem_version(file_stem(name, ext)) <= u64::MAX
}

/// The version carried by a candidate's name.
pub open spec fn name_version(name: Seq<char>, ext: Seq<char>) -> nat {
    stem_version(file_stem(name, ext))
}

/// `f` is what validation makes of the file called `name`.
pub open spec fn describes(f: MigrationFile, name: Seq<char>, ext: Seq<char>) -> bool {
    &&& f.file_name@ == name
    &&& f.name@ == file_stem(name, ext)
    &&& f.version as nat == name_version(name, ext)
    &&& f.description@ == stem_description(file_stem(name, ext))
}

/// `i` is the first candidate whose name is not well formed.
pub open spec fn first_invalid(c: Seq<Seq<char>>, ext: Seq<char>, i: int) -> bool {
    &&& 0 <= i < c.len()
    &&& !well_named(c[i], ext)
    &&& forall|j: int| 0 <= j < i ==> well_named(#[trigger] c[j], ext)
}

/// Two different candidates carry the same version.
pub open spec fn clash(c: Seq<Seq<char>>, ext: Seq<char>, i: int, j: int) -> bool {
    0 <= i < j < c.len() && name_version(c[i], ext) == name_version(c[j], ext)
}

/// `j` is the first candidate whose version an earlier candidate already has.
pub open spec fn first_duplicate(c: Seq<Seq<char>>, ext: Seq<char>, j: int) -> bool {
    &&& exists|i: int| clash(c, ext, i, j)
    &&& forall|i: int, k: int| k < j ==> !#[trigger] clash(c, ext, i, k)
}

/// `v` holds one validated file per candidate, by strictly increasing version.
pub open spec fn ordered_files(v: Seq<MigrationFile>, c: Seq<Seq<char>>, ext: Seq<char>) -> bool {
    &&& v.len() == c.len()
    &&& forall|i: int, j: int| 0 <= i < j < v.len() ==> v[i].version < v[j].version
    &&& forall|i: int| 0 <= i < v.len() ==> has_source(#[trigger] v[i], c, ext)
    &&& forall|j: int| 0 <= j < c.len() ==> has_image(v, #[trigger] c[j], ext)
}

/// `f` is what validation makes of one of the names in `c`.
pub open spec fn has_source(f: MigrationFile, c: Seq<Seq<char>>, ext: Seq<char>) -> bool {
    exists|j: int| 0 <= j < c.len() && describes(f, #[trigger] c[j], ext)
}

/// Some element of `v` is what validation makes of `name`.
pub open spec fn has_image(v: Seq<MigrationFile>, name: Seq<char>, ext: Seq<char>) -> bool {
    exists|i: int| 0 <= i < v.len() && describes(#[trigger] v[i], name, ext)
}

/// The names of a directory listing, or `None` where there is no directory.
pub open spec fn listing_view(listing: Option<Vec<String>>) -> Option<Seq<Seq<char>>> {
    match listing {
        Some(v) => Some(v@.map_values(|s: String| s@)),
        None => None,
    }
}

/// What discovery gives for a listing (`None`: no such directory) and a kind.
#[verifier::opaque]
pub open spec fn located(
    listing: Option<Seq<Seq<char>>>,
    kind: MigrationType,
    r: Result<Vec<MigrationFile>, DiscoveryError>,
) -> bool {
    let ext = kind.spec_extension();
    match listing {
        None => r is Err && r->Err_0 is InvalidRoot,
        Some(names) => {
            let c = candidates(names, ext);
            if exists|i: int| first_invalid(c, ext, i) {
                exists|i: int|
                    first_invalid(c, ext, i) && r is Err && r->Err_0 is InvalidName
                        && r->Err_0->InvalidName_0@ == c[i]
            } else if exists|j: int| first_duplicate(c, ext, j) {
                exists|j: int|
                    first_duplicate(c, ext, j) && r is Err && r->Err_0 is DuplicateVersion
                        && r->Err_0->DuplicateVersion_0 as nat == name_version(c[j], ext)
            } else {
                r is Ok && ordered_files(r->Ok_0@, c, ext)
            }
        },
    }
}

/// Whether the file called `name` has the extension `ext`.
pub fn matches_extension(name: &str, ext: &Vec<char>) -> (r: bool)
    ensures
        r == has_extension(name@, ext@),
{
    let n = name.unicode_len();
    let e = ext.len();
    if n <= e || n - e < 2 {
        return false;
    }
    if name.get_char(n - e - 1) != '.' {
        return false;
    }
    let mut i: usize = 0;
    while i < e
        invariant
            i <= e,
            e == ext@.len(),
            n == name@.len(),
            n > e + 1,
            forall|j: int| 0 <= j < i ==> name@[n - e + j] == #[trigger] ext@[j],
        decreases e - i,
    {
        if name.get_char(n - e + i) != ext[i] {
            assert(name@.subrange(n - e, n as int)[i as int] != ext@[i as int]);
            return false;
        }
        i = i + 1;
    }
    assert(name@.subrange(n - e, n as int) =~= ext@);
    true
}

/// Keeps the names with the extension `ext`, in their order.
fn select_candidates(names: &Vec<String>, ext: &Vec<char>) -> (r: Vec<String>)
    ensures
        r@.map_values(|s: String| s@) == candidates(names@.map_values(|s: String| s@), ext@),
{
    let ghost all = names@.map_values(|s: String| s@);
    let mut r: Vec<String> = Vec::new();
    let mut i: usize = 0;
    while i < names.len()
        invariant
            i <= names.len(),
            all == names@.map_values(|s: String| s@),
            r@.map_values(|s: String| s@) == candidates(all.subrange(0, i as int), ext@),
        decreases names.len() - i,
    {
        proof {
            assert(all.subrange(0, i + 1).drop_last() =~= all.subrange(0, i as int));
        }
        if matches_extension(names[i].as_str(), ext) {
            r.push(names[i].clone());
            assert(r@.map_values(|s: String| s@) =~= candidates(all.subrange(0, i as int), ext@).push(all[i as int]));
        }
        i = i + 1;
    }
    assert(all.subrange(0, i as int) =~= all);
    r
}

/// Every candidate has the extension it was selected by.
proof fn lemma_candidates_have_extension(names: Seq<Seq<char>>, ext: Seq<char>)
    ensures
        forall|i: int|
            0 <= i < candidates(names, ext).len() ==> has_extension(
                #[trigger] candidates(names, ext)[i],
                ext,
            ),
    decreases names.len(),
{
    if names.len() > 0 {
        let rest = candidates(names.drop_last(), ext);
        lemma_candidates_have_extension(names.drop_last(), ext);
        assert forall|i: int| 0 <= i < candidates(names, ext).len() implies has_extension(
            #[trigger] candidates(names, ext)[i],
            ext,
        ) by {
            if i < rest.len() {
                assert(has_extension(rest[i], ext));
            }
        }
    }
}

/// Parses the name of each candidate, failing on the first that is not well
/// formed.
fn validate(cands: &Vec<String>, ext: &Vec<char>) -> (r: Result<Vec<MigrationFile>, DiscoveryError>)
    requires
        forall|i: int| 0 <= i < cands@.len() ==> has_extension(#[trigger] cands@[i]@, ext@),
    ensures
        match r {
            Ok(v) => {
                &&& v@.len() == cands@.len()
                &&& forall|k: int| 0 <= k < v@.len() ==> describes(#[trigger] v@[k], cands@[k]@, ext@)
                &&& forall|k: int| 0 <= k < v@.len() ==> well_named(#[trigger] cands@[k]@, ext@)
            },
            Err(e) => exists|i: int|
                first_invalid(cands@.map_values(|s: String| s@), ext@, i) && e is InvalidName
                    && e->InvalidName_0@ == cands@[i]@,
        },
{
    let ghost c = cands@.map_values(|s: String| s@);
    let mut v: Vec<MigrationFile> = Vec::new();
    let mut k: usize = 0;
    while k < cands.len()
        invariant
            k <= cands.len(),
            c == cands@.map_values(|s: String| s@),
            forall|i: int| 0 <= i < cands@.len() ==> has_extension(#[trigger] cands@[i]@, ext@),
            v@.len() == k,
            forall|j: int| 0 <= j < k ==> describes(#[trigger] v@[j], cands@[j]@, ext@),
            forall|j: int| 0 <= j < k ==> well_named(#[trigger] cands@[j]@, ext@),
        decreases cands.len() - k,
    {
        let name = &cands[k];
        let n = name.as_str().unicode_len();
        assert(has_extension(cands@[k as int]@, ext@));
        let stem = name.as_str().substring_char(0, n - ext.len() - 1);
        match parse_stem(stem) {
            Some((version, description)) => {
                let f = MigrationFile {
                    file_name: name.clone(),
                    name: stem.to_string(),
                    version,
                    description,
                };
                v.push(f);
            },
            None => {
                assert(first_invalid(c, ext@, k as int));
                return Err(DiscoveryError::InvalidName(name.clone()));
            },
        }
        k = k + 1;
    }
    Ok(v)
}

/// Finds the first file whose version an earlier file already has.
fn find_duplicate(files: &Vec<MigrationFile>) -> (r: Option<u64>)
    ensures
        match r {
            Some(v) => exists|j: int|
                0 <= j < files@.len() && files@[j].version == v
                    && (exists|i: int| 0 <= i < j && files@[i].version == v)
                    && forall|i: int, k: int|
                    0 <= i < k < j ==> #[trigger] files@[i].version != #[trigger] files@[k].version,
            None => forall|i: int, k: int|
                0 <= i < k < files@.len() ==> #[trigger] files@[i].version != #[trigger] files@[k].version,
        },
{
    let mut j: usize = 0;
    while j < files.len()
        invariant
            j <= files.len(),
            forall|i: int, k: int| 0 <= i < k < j ==> #[trigger] files@[i].version != #[trigger] files@[k].version,
        decreases files.len() - j,
    {
        let mut i: usize = 0;
        while i < j
            invariant
                i <= j < files.len(),
                forall|a: int, k: int| 0 <= a < k < j ==> #[trigger] files@[a].version != #[trigger] files@[k].version,
                forall|a: int| 0 <= a < i ==> #[trigger] files@[a].version != files@[j as int].version,
            decreases j - i,
        {
            if files[i].version == files[j].version {
                assert(0 <= i < j && files@[i as int].version == files@[j as int].version);
                return Some(files[j].version);
            }
            i = i + 1;
        }
        j = j + 1;
    }
    None
}

/// The versions in `s` are pairwise different.
pub open spec fn distinct_versions(s: Seq<MigrationFile>) -> bool {
    forall|i: int, k: int| 0 <= i < k < s.len() ==> #[trigger] s[i].version != #[trigger] s[k].version
}

/// The versions in `s` strictly increase.
pub open spec fn increasing_versions(s: Seq<MigrationFile>) -> bool {
    forall|i: int, j: int| 0 <= i < j < s.len() ==> #[trigger] s[i].version < #[trigger] s[j].version
}

/// Each element of `s` is one of `orig[lo..]`.
#[verifier::opaque]
spec fn drawn_from(s: Seq<MigrationFile>, orig: Seq<MigrationFile>, lo: int) -> bool {
    forall|i: int| 0 <= i < s.len() ==> exists|j: int| lo <= j < orig.len() && #[trigger] s[i] == orig[j]
}

/// Each of `orig[lo..]` is an element of `s`.
#[verifier::opaque]
spec fn covers(s: Seq<MigrationFile>, orig: Seq<MigrationFile>, lo: int) -> bool {
    forall|j: int| lo <= j < orig.len() ==> exists|i: int| 0 <= i < s.len() && s[i] == #[trigger] orig[j]
}

/// Inserting `orig[m]` into a sequence drawn from `orig[m + 1..]` gives one
/// drawn from `orig[m..]`.
proof fn lemma_insert_drawn(orig: Seq<MigrationFile>, m: int, before: Seq<MigrationFile>, p: int)
    requires
        0 <= m < orig.len(),
        0 <= p <= before.len(),
        drawn_from(before, orig, m + 1),
    ensures
        drawn_from(before.insert(p, orig[m]), orig, m),
{
    reveal(drawn_from);
    let out = before.insert(p, orig[m]);
    before.insert_ensures(p, orig[m]);
    assert forall|i: int| 0 <= i < out.len() implies exists|j: int| m <= j < orig.len() && #[trigger] out[i] == orig[j] by {
        if i < p {
            let j = choose|j: int| m + 1 <= j < orig.len() && before[i] == orig[j];
            assert(out[i] == orig[j]);
        } else if i > p {
            let j = choose|j: int| m + 1 <= j < orig.len() && before[i - 1] == orig[j];
            assert(out[i] == orig[j]);
        } else {
            assert(out[i] == orig[m]);
        }
    }
}

/// Inserting `orig[m]` into a sequence covering `orig[m + 1..]` gives one
/// covering `orig[m..]`.
proof fn lemma_insert_covers(orig: Seq<MigrationFile>, m: int, before: Seq<MigrationFile>, p: int)
    requires
        0 <= m < orig.len(),
        0 <= p <= before.len(),
        covers(before, orig, m + 1),
    ensures
        covers(before.insert(p, orig[m]), orig, m),
{
    reveal(covers);
    let out = before.insert(p, orig[m]);
    before.insert_ensures(p, orig[m]);
    assert forall|j: int| m <= j < orig.len() implies exists|i: int| 0 <= i < out.len() && out[i] == #[trigger] orig[j] by {
        if j == m {
            assert(out[p] == orig[j]);
        } else {
            let i = choose|i: int| 0 <= i < before.len() && before[i] == orig[j];
            if i < p {
                assert(out[i] == orig[j]);
            } else {
                assert(out[i + 1] == orig[j]);
            }
        }
    }
}

/// Inserting `x` into a sorted sequence, after the smaller versions and before
/// the larger ones, keeps it sorted.
#[verifier::rlimit(40)]
proof fn lemma_insert_sorted(before: Seq<MigrationFile>, p: int, x: MigrationFile)
    requires
        0 <= p <= before.len(),
        increasing_versions(before),
        forall|a: int| 0 <= a < p ==> #[trigger] before[a].version < x.version,
        p < before.len() ==> before[p].version > x.version,
    ensures
        increasing_versions(before.insert(p, x)),
{
    let out = before.insert(p, x);
    before.insert_ensures(p, x);
    assert forall|i: int, j: int| 0 <= i < j < out.len() implies #[trigger] out[i].version < #[trigger] out[j].version by {
        if j < p {
            assert(out[i] == before[i] && out[j] == before[j]);
        } else if j == p {
            assert(out[i] == before[i]);
        } else if i < p {
            assert(out[i] == before[i] && out[j] == before[j - 1]);
            assert(before[i].version < x.version);
            assert(x.version < before[p].version);
        } else if i == p {
            assert(out[j] == before[j - 1]);
            assert(before[p].version <= before[j - 1].version);
        } else {
            assert(out[j] == before[j - 1]);
            assert(out[i] == before[i - 1]);
        }
    }
}

/// Sorts files of distinct versions by increasing version.
fn sort_by_version(files: Vec<MigrationFile>) -> (r: Vec<MigrationFile>)
    requires
        distinct_versions(files@),
    ensures
        r@.len() == files@.len(),
        increasing_versions(r@),
        drawn_from(r@, files@, 0),
        covers(r@, files@, 0),
{
    let ghost orig = files@;
    let mut rest = files;
    let mut out: Vec<MigrationFile> = Vec::new();
    proof {
        reveal(drawn_from);
        reveal(covers);
    }
    while rest.len() > 0
        invariant
            rest@ == orig.subrange(0, rest@.len() as int),
            out@.len() + rest@.len() == orig.len(),
            distinct_versions(orig),
            increasing_versions(out@),
            drawn_from(out@, orig, rest@.len() as int),
            covers(out@, orig, rest@.len() as int),
        decreases rest@.len(),
    {
        let ghost m = rest@.len() - 1;
        let ghost before = out@;
        let x = rest.pop().unwrap();
        assert(x == orig[m]);
        let mut p: usize = 0;
        while p < out.len()
            invariant
                p <= out@.len(),
                out@ == before,
                0 <= m < orig.len(),
                x == orig[m],
                distinct_versions(orig),
                drawn_from(before, orig, m + 1),
                forall|a: int| 0 <= a < p ==> #[trigger] before[a].version < x.version,
            ensures
                p < out@.len() ==> before[p as int].version > x.version,
            decreases out@.len() - p,
        {
            proof {
                reveal(drawn_from);
                let j = choose|j: int| m + 1 <= j < orig.len() && before[p as int] == orig[j];
                assert(orig[m].version != orig[j].version);
            }
            if out[p].version > x.version {
                break;
            }
            p = p + 1;
        }
        out.insert(p, x);
        proof {
            lemma_insert_drawn(orig, m, before, p as int);
            lemma_insert_covers(orig, m, before, p as int);
            lemma_insert_sorted(before, p as int, x);
            assert(rest@ =~= orig.subrange(0, rest@.len() as int));
        }
    }
    out
}

/// `files[k]` is what validation makes of `c[k]`, for each `k`.
pub open spec fn parsed_from(files: Seq<MigrationFile>, c: Seq<Seq<char>>, ext: Seq<char>) -> bool {
    &&& files.len() == c.len()
    &&& forall|k: int| 0 <= k < c.len() ==> describes(#[trigger] files[k], c[k], ext)
}

/// A missing directory is reported as `InvalidRoot`.
proof fn lemma_located_root(kind: MigrationType, r: Result<Vec<MigrationFile>, DiscoveryError>)
    requires
        r is Err && r->Err_0 is InvalidRoot,
    ensures
        located(None, kind, r),
{
    reveal(located);
}

/// The first candidate that is not well formed is reported as `InvalidName`.
proof fn lemma_located_invalid(
    names: Seq<Seq<char>>,
    kind: MigrationType,
    r: Result<Vec<MigrationFile>, DiscoveryError>,
)
    requires
        exists|i: int|
            first_invalid(candidates(names, kind.spec_extension()), kind.spec_extension(), i)
                && r is Err && r->Err_0 is InvalidName && r->Err_0->InvalidName_0@ == candidates(
                names,
                kind.spec_extension(),
            )[i],
    ensures
        located(Some(names), kind, r),
{
    reveal(located);
}

/// With all names well formed, the first version that repeats is reported.
proof fn lemma_located_duplicate(
    names: Seq<Seq<char>>,
    kind: MigrationType,
    files: Seq<MigrationFile>,
    v: u64,
    r: Result<Vec<MigrationFile>, DiscoveryError>,
)
    requires
        parsed_from(files, candidates(names, kind.spec_extension()), kind.spec_extension()),
        forall|k: int| 0 <= k < files.len() ==> well_named(#[trigger] candidates(names, kind.spec_extension())[k], kind.spec_extension()),
        exists|j: int|
            0 <= j < files.len() && files[j].version == v
                && (exists|i: int| 0 <= i < j && files[i].version == v)
                && forall|i: int, k: int|
                0 <= i < k < j ==> #[trigger] files[i].version != #[trigger] files[k].version,
        r is Err && r->Err_0 is DuplicateVersion && r->Err_0->DuplicateVersion_0 == v,
    ensures
        located(Some(names), kind, r),
{
    reveal(located);
    let ext = kind.spec_extension();
    let c = candidates(names, ext);
    assert forall|i: int| !first_invalid(c, ext, i) by {
        if 0 <= i < c.len() {
            assert(well_named(c[i], ext));
        }
    }
    let j = choose|j: int|
        0 <= j < files.len() && files[j].version == v
            && (exists|i: int| 0 <= i < j && files[i].version == v)
            && forall|i: int, k: int|
            0 <= i < k < j ==> #[trigger] files[i].version != #[trigger] files[k].version;
    let i = choose|i: int| 0 <= i < j && files[i].version == v;
    assert(describes(files[i], c[i], ext));
    assert(describes(files[j], c[j], ext));
    assert(clash(c, ext, i, j));
    assert forall|a: int, k: int| k < j implies !#[trigger] clash(c, ext, a, k) by {
        if 0 <= a < k < c.len() {
            assert(describes(files[a], c[a], ext));
            assert(describes(files[k], c[k], ext));
            assert(files[a].version != files[k].version);
        }
    }
    assert(first_duplicate(c, ext, j));
}

/// Where every candidate is well formed, none is the first invalid one.
proof fn lemma_no_invalid(c: Seq<Seq<char>>, ext: Seq<char>)
    requires
        forall|k: int| 0 <= k < c.len() ==> well_named(#[trigger] c[k], ext),
    ensures
        forall|i: int| !first_invalid(c, ext, i),
{
    assert forall|i: int| !first_invalid(c, ext, i) by {
        if 0 <= i < c.len() {
            assert(well_named(c[i], ext));
        }
    }
}

/// Where the parsed versions differ, no candidate repeats a version.
proof fn lemma_no_duplicate(files: Seq<MigrationFile>, c: Seq<Seq<char>>, ext: Seq<char>)
    requires
        parsed_from(files, c, ext),
        distinct_versions(files),
    ensures
        forall|j: int| !first_duplicate(c, ext, j),
{
    assert forall|j: int| !first_duplicate(c, ext, j) by {
        if first_duplicate(c, ext, j) {
            let i = choose|i: int| clash(c, ext, i, j);
            assert(describes(files[i], c[i], ext));
            assert(describes(files[j], c[j], ext));
            assert(files[i].version != files[j].version);
        }
    }
}

/// Each sorted file is what validation made of some candidate.
proof fn lemma_sorted_drawn(files: Seq<MigrationFile>, c: Seq<Seq<char>>, ext: Seq<char>, sorted: Seq<MigrationFile>)
    requires
        parsed_from(files, c, ext),
        drawn_from(sorted, files, 0),
    ensures
        forall|i: int| 0 <= i < sorted.len() ==> has_source(#[trigger] sorted[i], c, ext),
{
    reveal(drawn_from);
    assert forall|i: int| 0 <= i < sorted.len() implies has_source(#[trigger] sorted[i], c, ext) by {
        let j = choose|j: int| 0 <= j < files.len() && #[trigger] sorted[i] == files[j];
        assert(describes(files[j], c[j], ext));
    }
}

/// Each candidate is represented among the sorted files.
proof fn lemma_sorted_covers(files: Seq<MigrationFile>, c: Seq<Seq<char>>, ext: Seq<char>, sorted: Seq<MigrationFile>)
    requires
        parsed_from(files, c, ext),
        covers(sorted, files, 0),
    ensures
        forall|j: int| 0 <= j < c.len() ==> has_image(sorted, #[trigger] c[j], ext),
{
    reveal(covers);
    assert forall|j: int| 0 <= j < c.len() implies has_image(sorted, #[trigger] c[j], ext) by {
        assert(describes(files[j], c[j], ext));
        let i = choose|i: int| 0 <= i < sorted.len() && sorted[i] == #[trigger] files[j];
        assert(describes(sorted[i], c[j], ext));
    }
}

/// Without invalid names or repeated versions, the ordered files are the result.
proof fn lemma_located_ok(
    names: Seq<Seq<char>>,
    kind: MigrationType,
    r: Result<Vec<MigrationFile>, DiscoveryError>,
)
    requires
        forall|i: int| !first_invalid(candidates(names, kind.spec_extension()), kind.spec_extension(), i),
        forall|j: int| !first_duplicate(candidates(names, kind.spec_extension()), kind.spec_extension(), j),
        r is Ok,
        ordered_files(r->Ok_0@, candidates(names, kind.spec_extension()), kind.spec_extension()),
    ensures
        located(Some(names), kind, r),
{
    reveal(located);
}

/// Discovers the migration files of one kind in a directory listing.
///
/// `listing` holds the names of the entries directly under the migrations
/// directory, or is `None` where that directory is missing. Names without the
/// kind's extension are ignored. The first remaining name whose stem does not
/// read `V<version>__<description>` fails the whole call with `InvalidName`;
/// then the first file whose version an earlier one already has fails it with
/// `DuplicateVersion`. Otherwise every remaining file is returned, ordered by
/// increasing version.
pub fn locate(listing: Option<Vec<String>>, kind: MigrationType) -> (r: Result<
    Vec<MigrationFile>,
    DiscoveryError,
>)
    ensures
        located(listing_view(listing), kind, r),
{
    let names = match listing {
        None => {
            let r = Err(DiscoveryError::InvalidRoot);
            proof {
                lemma_located_root(kind, r);
            }
            return r;
        },
        Some(v) => v,
    };
    let ext = kind.extension();
    let ghost all = names@.map_values(|s: String| s@);
    assert(listing_view(Some(names)) == Some(all));
    let cands = select_candidates(&names, &ext);
    let ghost c = candidates(all, ext@);
    proof {
        lemma_candidates_have_extension(all, ext@);
        assert forall|i: int| 0 <= i < cands@.len() implies has_extension(#[trigger] cands@[i]@, ext@) by {
            assert(cands@.map_values(|s: String| s@)[i] == cands@[i]@);
        }
    }
    let files = match validate(&cands, &ext) {
        Err(e) => {
            let r = Err(e);
            proof {
                lemma_located_invalid(all, kind, r);
            }
            return r;
        },
        Ok(f) => f,
    };
    proof {
        assert forall|k: int| 0 <= k < c.len() implies #[trigger] c[k] == cands@[k]@ by {
            assert(cands@.map_values(|s: String| s@)[k] == cands@[k]@);
        }
        assert(parsed_from(files@, c, ext@));
    }
    match find_duplicate(&files) {
        Some(v) => {
            let r = Err(DiscoveryError::DuplicateVersion(v));
            proof {
                lemma_located_duplicate(all, kind, files@, v, r);
            }
            return r;
        },
        None => {},
    }
    let ghost parsed = files@;
    let sorted = sort_by_version(files);
    proof {
        lemma_no_invalid(c, ext@);
        lemma_no_duplicate(parsed, c, ext@);
        lemma_sorted_drawn(parsed, c, ext@, sorted@);
        lemma_sorted_covers(parsed, c, ext@, sorted@);
        assert(ordered_files(sorted@, c, ext@));
    }
    let r = Ok(sorted);
    proof {
        lemma_located_ok(all, kind, r);
    }
    r
}

} // verus!
