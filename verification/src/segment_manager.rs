//! Keeping track of which table files have been handed out for upload.
//!
//! The table files of two column families are held level by level. Every
//! file has a status: not uploaded, being uploaded, or uploaded. Files that
//! overlap a key range and are not uploaded can be claimed, which marks them
//! as being uploaded; a claim is released again file by file, as uploaded up
//! to the point that the upload reached, and as not uploaded beyond it.

use crate::bytes::{bytes_lt, lex_lt, str_eq};
use crate::checkpoint::{LevelEntry, LevelFiles};
use vstd::prelude::*;

verus! {

/// How far a table file is on its way to being uploaded.
#[derive(Debug, Clone, Copy, PartialEq, Eq, Structural)]
pub enum SstStatus {
    NotUpload,
    Uploading,
    Uploaded,
}

/// A claimed file: its name and its place among the files of its level.
pub struct Claim {
    pub file_name: Seq<char>,
    pub idx: usize,
}

/// The claim that a pair of name and place stands for.
pub open spec fn claim_of(pair: (String, usize)) -> Claim {
    Claim { file_name: pair.0@, idx: pair.1 }
}

/// The claims that pairs of name and place stand for.
pub open spec fn claims_of(pairs: Seq<(String, usize)>) -> Seq<Claim> {
    Seq::new(pairs.len(), |i: int| claim_of(pairs[i]))
}

/// Whether a file that spans from `start_key` to `file_end` overlaps the
/// range from `range_start` to `range_end`. An empty end is no bound.
pub open spec fn overlaps(
    start_key: Seq<u8>,
    file_end: Seq<u8>,
    range_start: Seq<u8>,
    range_end: Seq<u8>,
) -> bool {
    (range_end.len() == 0 || lex_lt(start_key, range_end)) && (file_end.len() == 0 || lex_lt(
        range_start,
        file_end,
    ))
}

/// What claiming the files of one level comes to: the claims, and the
/// statuses afterwards.
pub struct LevelScan {
    pub claims: Seq<Claim>,
    pub statuses: Seq<SstStatus>,
}

/// Whether the file `e` is claimed when the statuses are `statuses`.
pub open spec fn claimable(
    e: LevelEntry,
    statuses: Seq<SstStatus>,
    range_start: Seq<u8>,
    range_end: Seq<u8>,
) -> bool {
    statuses[e.info.idx as int] == SstStatus::NotUpload && overlaps(
        e.start_key@,
        e.info.end_key@,
        range_start,
        range_end,
    )
}

/// Goes through the files of a level in their order and claims each file
/// that is not uploaded and overlaps the range.
pub open spec fn scan_level(
    entries: Seq<LevelEntry>,
    statuses: Seq<SstStatus>,
    range_start: Seq<u8>,
    range_end: Seq<u8>,
) -> LevelScan
    decreases entries.len(),
{
    if entries.len() == 0 {
        LevelScan { claims: Seq::empty(), statuses }
    } else {
        let before = scan_level(entries.drop_last(), statuses, range_start, range_end);
        let e = entries.last();
        if claimable(e, before.statuses, range_start, range_end) {
            LevelScan {
                claims: before.claims.push(
                    Claim { file_name: e.info.file_name@, idx: e.info.idx },
                ),
                statuses: before.statuses.update(e.info.idx as int, SstStatus::Uploading),
            }
        } else {
            before
        }
    }
}

/// Whether every file's place is a place in `statuses`.
pub open spec fn places_within(entries: Seq<LevelEntry>, statuses: Seq<SstStatus>) -> bool {
    forall|i: int| 0 <= i < entries.len() ==> (#[trigger] entries[i]).info.idx < statuses.len()
}

/// Whether each level of `map` has its statuses in `index`, and every file's
/// place is a place in them.
pub open spec fn index_covers(map: Seq<LevelFiles>, index: Seq<Vec<SstStatus>>) -> bool {
    &&& map.len() <= index.len()
    &&& forall|l: int| 0 <= l < map.len() ==> places_within((#[trigger] map[l])@, index[l]@)
}

/// The number of files of all levels.
pub open spec fn total_files(map: Seq<LevelFiles>) -> nat
    decreases map.len(),
{
    if map.len() == 0 {
        0
    } else {
        total_files(map.drop_last()) + map.last()@.len()
    }
}

/// The number of claims of all levels.
pub open spec fn total_claims(claims: Seq<Seq<Claim>>) -> nat
    decreases claims.len(),
{
    if claims.len() == 0 {
        0
    } else {
        total_claims(claims.drop_last()) + claims.last().len()
    }
}

/// Scanning a level keeps the number of statuses and claims no more files
/// than there are.
pub proof fn lemma_scan_level_bounds(
    entries: Seq<LevelEntry>,
    statuses: Seq<SstStatus>,
    range_start: Seq<u8>,
    range_end: Seq<u8>,
)
    requires
        places_within(entries, statuses),
    ensures
        scan_level(entries, statuses, range_start, range_end).statuses.len() == statuses.len(),
        scan_level(entries, statuses, range_start, range_end).claims.len() <= entries.len(),
    decreases entries.len(),
{
    if entries.len() > 0 {
        let head = entries.drop_last();
        assert(places_within(head, statuses)) by {
            assert forall|i: int| 0 <= i < head.len() implies (#[trigger] head[i]).info.idx
                < statuses.len() by {
                assert(head[i] == entries[i]);
            }
        }
        lemma_scan_level_bounds(head, statuses, range_start, range_end);
        assert(entries[entries.len() - 1].info.idx < statuses.len());
    }
}

/// Whether `claimed` holds, level by level, what scanning the levels of
/// `map` with the statuses `before` claims, and `after` the statuses that
/// the scans leave.
pub open spec fn claims_levels(
    map: Seq<LevelFiles>,
    before: Seq<Vec<SstStatus>>,
    range_start: Seq<u8>,
    range_end: Seq<u8>,
    claimed: Seq<Vec<(String, usize)>>,
    after: Seq<Vec<SstStatus>>,
) -> bool {
    &&& claimed.len() == map.len()
    &&& after.len() == before.len()
    &&& forall|l: int|
        0 <= l < map.len() ==> claims_of((#[trigger] claimed[l])@) == scan_level(
            map[l]@,
            before[l]@,
            range_start,
            range_end,
        ).claims
    &&& forall|l: int|
        0 <= l < map.len() ==> (#[trigger] after[l])@ == scan_level(
            map[l]@,
            before[l]@,
            range_start,
            range_end,
        ).statuses
    &&& forall|l: int| map.len() <= l < before.len() ==> (#[trigger] after[l])@ == before[l]@
}

/// The claims of each of the levels.
pub open spec fn level_claims(claimed: Seq<Vec<(String, usize)>>) -> Seq<Seq<Claim>> {
    Seq::new(claimed.len(), |l: int| claims_of(claimed[l]@))
}

fn scan_one_level(
    statuses: &mut Vec<SstStatus>,
    tree: &LevelFiles,
    start_key: &Vec<u8>,
    end_key: &Vec<u8>,
) -> (fs: Vec<(String, usize)>)
    requires
        places_within(tree@, old(statuses)@),
    ensures
        claims_of(fs@) == scan_level(tree@, old(statuses)@, start_key@, end_key@).claims,
        final(statuses)@ == scan_level(tree@, old(statuses)@, start_key@, end_key@).statuses,
        fs@.len() <= tree@.len(),
{
    let mut fs: Vec<(String, usize)> = Vec::new();
    let ghost entries = tree@;
    let ghost start = old(statuses)@;
    let mut i: usize = 0;
    assert(entries.take(0) =~= Seq::<LevelEntry>::empty());
    assert(claims_of(fs@) =~= Seq::<Claim>::empty());
    while i < tree.len()
        invariant
            i <= entries.len(),
            entries == tree@,
            places_within(entries, start),
            statuses@.len() == start.len(),
            fs@.len() <= i,
            claims_of(fs@) == scan_level(entries.take(i as int), start, start_key@, end_key@).claims,
            statuses@ == scan_level(entries.take(i as int), start, start_key@, end_key@).statuses,
        decreases entries.len() - i,
    {
        let e = tree.get(i);
        let idx = e.info.idx;
        let ghost done = claims_of(fs@);
        proof {
            assert(entries.take(i + 1).drop_last() =~= entries.take(i as int));
            assert(entries.take(i + 1).last() == entries[i as int]);
            assert(entries[i as int].info.idx < start.len());
        }
        let not_uploaded = match statuses[idx] {
            SstStatus::NotUpload => true,
            _ => false,
        };
        if not_uploaded && (end_key.len() == 0 || bytes_lt(
            e.start_key.as_slice(),
            end_key.as_slice(),
        )) && (e.info.end_key.len() == 0 || bytes_lt(
            start_key.as_slice(),
            e.info.end_key.as_slice(),
        )) {
            statuses[idx] = SstStatus::Uploading;
            fs.push((e.info.file_name.clone(), idx));
            assert(claims_of(fs@) =~= done.push(
                Claim { file_name: e.info.file_name@, idx: e.info.idx },
            ));
        }
        i += 1;
    }
    assert(entries.take(i as int) =~= entries);
    fs
}

/// Claims, level by level, the files of `map` that overlap the range from
/// `start_key` to `end_key` and are not uploaded. The claimed files are
/// marked as being uploaded in `index`. Returns the claims of each level and
/// their number.
pub fn find_ssts_internal(
    index: &mut Vec<Vec<SstStatus>>,
    map: &Vec<LevelFiles>,
    start_key: &Vec<u8>,
    end_key: &Vec<u8>,
) -> (r: (Vec<Vec<(String, usize)>>, usize))
    requires
        index_covers(map@, old(index)@),
        total_files(map@) <= usize::MAX,
    ensures
        claims_levels(map@, old(index)@, start_key@, end_key@, r.0@, final(index)@),
        r.1 == total_claims(level_claims(r.0@)),
        r.1 <= total_files(map@),
{
    let mut res: Vec<Vec<(String, usize)>> = Vec::new();
    let mut count: usize = 0;
    let ghost before = index@;
    let mut level: usize = 0;
    assert(level_claims(res@) =~= Seq::<Seq<Claim>>::empty());
    assert(map@.take(0) =~= Seq::<LevelFiles>::empty());
    while level < map.len()
        invariant
            level <= map@.len(),
            index_covers(map@, before),
            before == old(index)@,
            total_files(map@) <= usize::MAX,
            index@.len() == before.len(),
            res@.len() == level,
            forall|l: int|
                0 <= l < level ==> claims_of((#[trigger] res@[l])@) == scan_level(
                    map@[l]@,
                    before[l]@,
                    start_key@,
                    end_key@,
                ).claims,
            forall|l: int|
                0 <= l < level ==> (#[trigger] index@[l])@ == scan_level(
                    map@[l]@,
                    before[l]@,
                    start_key@,
                    end_key@,
                ).statuses,
            forall|l: int| level <= l < before.len() ==> (#[trigger] index@[l])@ == before[l]@,
            count == total_claims(level_claims(res@)),
            count <= total_files(map@.take(level as int)),
        decreases map@.len() - level,
    {
        let ghost claimed = level_claims(res@);
        proof {
            assert(places_within(map@[level as int]@, before[level as int]@));
            lemma_total_files_prefix(map@, level as int);
            lemma_total_files_prefix(map@, level + 1);
        }
        let fs = scan_one_level(&mut index[level], &map[level], start_key, end_key);
        count += fs.len();
        res.push(fs);
        proof {
            assert(level_claims(res@).drop_last() =~= claimed);
            assert(level_claims(res@).last() == claims_of(fs@));
        }
        level += 1;
    }
    proof {
        assert(map@.take(level as int) =~= map@);
    }
    (res, count)
}

/// The files of the first levels are no more than the files of all, and one
/// more level adds its files.
pub proof fn lemma_total_files_prefix(map: Seq<LevelFiles>, n: int)
    requires
        0 <= n <= map.len(),
    ensures
        total_files(map.take(n)) <= total_files(map),
        n < map.len() ==> total_files(map.take(n + 1)) == total_files(map.take(n)) + map[n]@.len(),
    decreases map.len() - n,
{
    if n == map.len() {
        assert(map.take(n) =~= map);
    } else {
        lemma_total_files_prefix(map, n + 1);
        assert(map.take(n + 1).drop_last() =~= map.take(n));
        assert(map.take(n + 1).last() == map[n]);
    }
}

/// The status that a released file gets: uploaded where the upload has
/// reached it, not uploaded where it has not.
pub open spec fn released(level: int, idx: int, progress_l: int, progress_f: int) -> SstStatus {
    if level < progress_l || (level == progress_l && idx <= progress_f) {
        SstStatus::Uploaded
    } else {
        SstStatus::NotUpload
    }
}

/// Whether one of `pairs` has the place `idx`.
pub open spec fn names_place(pairs: Seq<(String, usize)>, idx: int) -> bool {
    exists|j: int| 0 <= j < pairs.len() && (#[trigger] pairs[j]).1 == idx
}

/// Whether every claim of `findex` is of a level and a place that `index`
/// has.
pub open spec fn claims_within(findex: Seq<Vec<(String, usize)>>, index: Seq<Vec<SstStatus>>) -> bool {
    &&& findex.len() <= index.len()
    &&& forall|l: int, j: int|
        0 <= l < findex.len() && 0 <= j < findex[l]@.len() ==> (#[trigger] findex[l]@[j]).1
            < index[l]@.len()
}

/// Whether `after` is `before` with the claims of `findex` released.
pub open spec fn releases(
    before: Seq<Vec<SstStatus>>,
    findex: Seq<Vec<(String, usize)>>,
    progress_l: int,
    progress_f: int,
    after: Seq<Vec<SstStatus>>,
) -> bool {
    &&& after.len() == before.len()
    &&& forall|l: int| 0 <= l < before.len() ==> (#[trigger] after[l])@.len() == before[l]@.len()
    &&& forall|l: int, i: int|
        0 <= l < before.len() && 0 <= i < before[l]@.len() ==> (#[trigger] after[l]@[i]) == if l
            < findex.len() && names_place(findex[l]@, i) {
            released(l, i, progress_l, progress_f)
        } else {
            before[l]@[i]
        }
}

/// Releases the claims of `findex`: a claimed file of a level before
/// `progress_l`, or of that level and at most at place `progress_f`, is
/// marked as uploaded; every other claimed file as not uploaded.
pub fn release_index_internal(
    index: &mut Vec<Vec<SstStatus>>,
    findex: Vec<Vec<(String, usize)>>,
    progress_l: usize,
    progress_f: usize,
)
    requires
        claims_within(findex@, old(index)@),
    ensures
        releases(old(index)@, findex@, progress_l as int, progress_f as int, final(index)@),
{
    let ghost before = index@;
    let mut level: usize = 0;
    while level < findex.len()
        invariant
            level <= findex@.len(),
            before == old(index)@,
            claims_within(findex@, before),
            index@.len() == before.len(),
            forall|l: int| 0 <= l < before.len() ==> (#[trigger] index@[l])@.len() == before[l]@.len(),
            forall|l: int, i: int|
                0 <= l < before.len() && 0 <= i < before[l]@.len() ==> (#[trigger] index@[l]@[i])
                    == if l < level && names_place(findex@[l]@, i) {
                    released(l, i, progress_l as int, progress_f as int)
                } else {
                    before[l]@[i]
                },
        decreases findex@.len() - level,
    {
        let ghost pairs = findex@[level as int]@;
        let mut j: usize = 0;
        while j < findex[level].len()
            invariant
                j <= pairs.len(),
                level < findex@.len(),
                pairs == findex@[level as int]@,
                before == old(index)@,
                claims_within(findex@, before),
                index@.len() == before.len(),
                forall|l: int|
                    0 <= l < before.len() ==> (#[trigger] index@[l])@.len() == before[l]@.len(),
                forall|l: int, i: int|
                    0 <= l < before.len() && 0 <= i < before[l]@.len() ==> (
                    #[trigger] index@[l]@[i]) == if l < level && names_place(findex@[l]@, i) {
                        released(l, i, progress_l as int, progress_f as int)
                    } else if l == level && names_place(pairs.take(j as int), i) {
                        released(l, i, progress_l as int, progress_f as int)
                    } else {
                        before[l]@[i]
                    },
            decreases pairs.len() - j,
        {
            let idx = findex[level][j].1;
            let ghost was = index@;
            proof {
                assert(findex@[level as int]@[j as int].1 < before[level as int]@.len());
            }
            let status = if level < progress_l || (level == progress_l && idx <= progress_f) {
                SstStatus::Uploaded
            } else {
                SstStatus::NotUpload
            };
            index[level][idx] = status;
            proof {
                let now = pairs.take(j + 1);
                let then = pairs.take(j as int);
                assert forall|i: int| names_place(now, i) <==> (names_place(then, i) || i
                    == idx) by {
                    if names_place(now, i) {
                        let a = choose|a: int| 0 <= a < now.len() && (#[trigger] now[a]).1 == i;
                        if a < j {
                            assert(then[a].1 == i);
                        }
                    }
                    if names_place(then, i) {
                        let a = choose|a: int| 0 <= a < then.len() && (#[trigger] then[a]).1 == i;
                        assert(now[a].1 == i);
                    }
                    if i == idx {
                        assert(now[j as int].1 == i);
                    }
                }
            }
            j += 1;
        }
        proof {
            assert(pairs.take(j as int) =~= pairs);
        }
        level += 1;
    }
}

/// Whether the files of `map` carry their places, and `index` has one status
/// for each of them.
pub open spec fn indexed(map: Seq<LevelFiles>, index: Seq<Vec<SstStatus>>) -> bool {
    &&& index.len() == map.len()
    &&& forall|l: int| 0 <= l < map.len() ==> (#[trigger] index[l])@.len() == map[l]@.len()
    &&& forall|l: int, i: int|
        0 <= l < map.len() && 0 <= i < map[l]@.len() ==> (#[trigger] map[l]@[i]).info.idx == i
}

/// Whether `after` holds the files of `before`, with nothing changed but
/// their places.
pub open spec fn same_files(before: Seq<LevelFiles>, after: Seq<LevelFiles>) -> bool {
    &&& after.len() == before.len()
    &&& forall|l: int| 0 <= l < before.len() ==> (#[trigger] after[l])@.len() == before[l]@.len()
    &&& forall|l: int, i: int|
        0 <= l < before.len() && 0 <= i < before[l]@.len() ==> {
            &&& (#[trigger] after[l]@[i]).start_key == before[l]@[i].start_key
            &&& after[l]@[i].info.file_name == before[l]@[i].info.file_name
            &&& after[l]@[i].info.end_key == before[l]@[i].info.end_key
        }
}

/// Whether every status of `index` is "not uploaded".
pub open spec fn none_uploaded(index: Seq<Vec<SstStatus>>) -> bool {
    forall|l: int, i: int|
        0 <= l < index.len() && 0 <= i < index[l]@.len() ==> (#[trigger] index[l]@[i])
            == SstStatus::NotUpload
}

/// A level with the same files has as many of them.
pub proof fn lemma_same_files_total(before: Seq<LevelFiles>, after: Seq<LevelFiles>)
    requires
        same_files(before, after),
    ensures
        total_files(after) == total_files(before),
    decreases before.len(),
{
    if before.len() > 0 {
        let b = before.drop_last();
        let a = after.drop_last();
        assert(same_files(b, a)) by {
            assert forall|l: int| 0 <= l < b.len() implies (#[trigger] a[l])@.len() == b[l]@.len() by {
                assert(after[l]@.len() == before[l]@.len());
            }
            assert forall|l: int, i: int| 0 <= l < b.len() && 0 <= i < b[l]@.len() implies {
                &&& (#[trigger] a[l]@[i]).start_key == b[l]@[i].start_key
                &&& a[l]@[i].info.file_name == b[l]@[i].info.file_name
                &&& a[l]@[i].info.end_key == b[l]@[i].info.end_key
            } by {
                assert(after[l]@[i].start_key == before[l]@[i].start_key);
            }
        }
        lemma_same_files_total(b, a);
        assert(after[after.len() - 1]@.len() == before[before.len() - 1]@.len());
    }
}

/// The table files of two column families, with the status of each file.
pub struct SegmentMapManager {
    map_d: Vec<LevelFiles>,
    map_w: Vec<LevelFiles>,
    index_d: Vec<Vec<SstStatus>>,
    index_w: Vec<Vec<SstStatus>>,
}

impl SegmentMapManager {
    /// The files of the first column family, level by level.
    pub closed spec fn files_d(&self) -> Seq<LevelFiles> {
        self.map_d@
    }

    /// The files of the second column family, level by level.
    pub closed spec fn files_w(&self) -> Seq<LevelFiles> {
        self.map_w@
    }

    /// The statuses of the files of the first column family.
    pub closed spec fn statuses_d(&self) -> Seq<Vec<SstStatus>> {
        self.index_d@
    }

    /// The statuses of the files of the second column family.
    pub closed spec fn statuses_w(&self) -> Seq<Vec<SstStatus>> {
        self.index_w@
    }

    /// Whether every file has its place and its status, and the files can be
    /// counted.
    pub open spec fn wf(&self) -> bool {
        &&& indexed(self.files_d(), self.statuses_d())
        &&& indexed(self.files_w(), self.statuses_w())
        &&& total_files(self.files_d()) + total_files(self.files_w()) <= usize::MAX
    }

    /// Gives every file of `map` its place among the files of its level, and
    /// returns a status of "not uploaded" for each.
    pub fn generate_index(map: &mut Vec<LevelFiles>) -> (index: Vec<Vec<SstStatus>>)
        ensures
            same_files(old(map)@, final(map)@),
            indexed(final(map)@, index@),
            none_uploaded(index@),
    {
        let ghost before = map@;
        let mut index: Vec<Vec<SstStatus>> = Vec::new();
        let mut level: usize = 0;
        while level < map.len()
            invariant
                level <= before.len(),
                before == old(map)@,
                same_files(before, map@),
                index@.len() == level,
                forall|l: int| 0 <= l < level ==> (#[trigger] index@[l])@.len() == map@[l]@.len(),
                forall|l: int, i: int|
                    0 <= l < level && 0 <= i < map@[l]@.len() ==> (#[trigger] map@[l]@[i]).info.idx
                        == i,
                forall|l: int, i: int|
                    0 <= l < level && 0 <= i < index@[l]@.len() ==> (#[trigger] index@[l]@[i])
                        == SstStatus::NotUpload,
            decreases before.len() - level,
        {
            let mut lvl_idx: Vec<SstStatus> = Vec::new();
            let mut i: usize = 0;
            let n = map[level].len();
            while i < n
                invariant
                    i <= n,
                    level < before.len(),
                    n == before[level as int]@.len(),
                    before == old(map)@,
                    same_files(before, map@),
                    lvl_idx@.len() == i,
                    forall|j: int| 0 <= j < i ==> (#[trigger] lvl_idx@[j]) == SstStatus::NotUpload,
                    forall|j: int|
                        0 <= j < i ==> (#[trigger] map@[level as int]@[j]).info.idx == j,
                    forall|l: int, j: int|
                        0 <= l < level && 0 <= j < map@[l]@.len() ==> (#[trigger] map@[l]@[j]).info.idx
                            == j,
                    forall|l: int| 0 <= l < level ==> (#[trigger] index@[l])@.len() == map@[l]@.len(),
                decreases n - i,
            {
                let ghost was = map@;
                map[level].set_idx(i, i);
                proof {
                    assert forall|l: int| 0 <= l < before.len() implies (#[trigger] map@[l])@.len()
                        == before[l]@.len() by {
                        assert(was[l]@.len() == before[l]@.len());
                    }
                    assert forall|l: int, j: int|
                        0 <= l < before.len() && 0 <= j < before[l]@.len() implies {
                        &&& (#[trigger] map@[l]@[j]).start_key == before[l]@[j].start_key
                        &&& map@[l]@[j].info.file_name == before[l]@[j].info.file_name
                        &&& map@[l]@[j].info.end_key == before[l]@[j].info.end_key
                    } by {
                        assert(was[l]@[j].start_key == before[l]@[j].start_key);
                    }
                    assert forall|j: int| 0 <= j < i + 1 implies (
                    #[trigger] map@[level as int]@[j]).info.idx == j by {
                        if j < i {
                            assert(was[level as int]@[j].info.idx == j);
                        }
                    }
                    assert forall|l: int, j: int|
                        0 <= l < level && 0 <= j < map@[l]@.len() implies (
                    #[trigger] map@[l]@[j]).info.idx == j by {
                        assert(was[l]@[j].info.idx == j);
                    }
                    assert forall|l: int| 0 <= l < level implies (#[trigger] index@[l])@.len()
                        == map@[l]@.len() by {
                        assert(index@[l]@.len() == was[l]@.len());
                    }
                }
                lvl_idx.push(SstStatus::NotUpload);
                i += 1;
            }
            index.push(lvl_idx);
            level += 1;
        }
        index
    }

    /// Whether the files of `d` and `w` together can be counted.
    pub fn countable(d: &Vec<LevelFiles>, w: &Vec<LevelFiles>) -> (ok: bool)
        ensures
            ok == (total_files(d@) + total_files(w@) <= usize::MAX),
    {
        let mut total: usize = 0;
        let mut l: usize = 0;
        assert(d@.take(0) =~= Seq::<LevelFiles>::empty());
        while l < d.len()
            invariant
                l <= d@.len(),
                total == total_files(d@.take(l as int)),
            decreases d@.len() - l,
        {
            proof {
                lemma_total_files_prefix(d@, l as int);
                lemma_total_files_prefix(d@, l + 1);
            }
            if d[l].len() > usize::MAX - total {
                return false;
            }
            total += d[l].len();
            l += 1;
        }
        assert(d@.take(l as int) =~= d@);
        let mut k: usize = 0;
        assert(w@.take(0) =~= Seq::<LevelFiles>::empty());
        while k < w.len()
            invariant
                k <= w@.len(),
                total == total_files(d@) + total_files(w@.take(k as int)),
            decreases w@.len() - k,
        {
            proof {
                lemma_total_files_prefix(w@, k as int);
                lemma_total_files_prefix(w@, k + 1);
            }
            if w[k].len() > usize::MAX - total {
                return false;
            }
            total += w[k].len();
            k += 1;
        }
        assert(w@.take(k as int) =~= w@);
        true
    }

    /// A manager of the files `d` and `w`, none of them uploaded.
    pub fn new(d: Vec<LevelFiles>, w: Vec<LevelFiles>) -> (m: SegmentMapManager)
        requires
            total_files(d@) + total_files(w@) <= usize::MAX,
        ensures
            m.wf(),
            same_files(d@, m.files_d()),
            same_files(w@, m.files_w()),
            none_uploaded(m.statuses_d()),
            none_uploaded(m.statuses_w()),
    {
        let mut d = d;
        let mut w = w;
        let ghost d0 = d@;
        let ghost w0 = w@;
        let index_d_raw = Self::generate_index(&mut d);
        let index_w_raw = Self::generate_index(&mut w);
        proof {
            lemma_same_files_total(d0, d@);
            lemma_same_files_total(w0, w@);
        }
        SegmentMapManager { map_d: d, map_w: w, index_d: index_d_raw, index_w: index_w_raw }
    }

    /// A manager of the files `d` and `w` under a new random name.
    pub fn register(d: Vec<LevelFiles>, w: Vec<LevelFiles>) -> (r: (String, SegmentMapManager))
        requires
            total_files(d@) + total_files(w@) <= usize::MAX,
        ensures
            r.1.wf(),
            same_files(d@, r.1.files_d()),
            same_files(w@, r.1.files_w()),
            none_uploaded(r.1.statuses_d()),
            none_uploaded(r.1.statuses_w()),
    {
        let id = fresh_id();
        (id, Self::new(d, w))
    }

    /// Claims the files of both column families that overlap the range from
    /// `start_key` to `end_key` and are not uploaded. Returns the claims of
    /// the first column family, those of the second, and their number.
    pub fn find_ssts(&mut self, start_key: &Vec<u8>, end_key: &Vec<u8>) -> (r: (
        Vec<Vec<(String, usize)>>,
        Vec<Vec<(String, usize)>>,
        usize,
    ))
        requires
            old(self).wf(),
        ensures
            final(self).wf(),
            final(self).files_d() == old(self).files_d(),
            final(self).files_w() == old(self).files_w(),
            claims_levels(
                old(self).files_d(),
                old(self).statuses_d(),
                start_key@,
                end_key@,
                r.0@,
                final(self).statuses_d(),
            ),
            claims_levels(
                old(self).files_w(),
                old(self).statuses_w(),
                start_key@,
                end_key@,
                r.1@,
                final(self).statuses_w(),
            ),
            r.2 == total_claims(level_claims(r.0@)) + total_claims(level_claims(r.1@)),
    {
        proof {
            lemma_indexed_covers(self.map_d@, self.index_d@);
            lemma_indexed_covers(self.map_w@, self.index_w@);
        }
        let (d, d_cnt) = find_ssts_internal(&mut self.index_d, &self.map_d, start_key, end_key);
        let (w, w_cnt) = find_ssts_internal(&mut self.index_w, &self.map_w, start_key, end_key);
        proof {
            assert forall|l: int| 0 <= l < self.map_d@.len() implies (#[trigger] self.index_d@[l])@.len()
                == self.map_d@[l]@.len() by {
                lemma_scan_level_bounds(
                    self.map_d@[l]@,
                    old(self).index_d@[l]@,
                    start_key@,
                    end_key@,
                );
            }
            assert forall|l: int| 0 <= l < self.map_w@.len() implies (#[trigger] self.index_w@[l])@.len()
                == self.map_w@[l]@.len() by {
                lemma_scan_level_bounds(
                    self.map_w@[l]@,
                    old(self).index_w@[l]@,
                    start_key@,
                    end_key@,
                );
            }
        }
        (d, w, d_cnt + w_cnt)
    }

    /// Releases claims: those of `d` on the first column family, up to the
    /// progress `d_progress_l` and `d_progress_f`, and those of `w` on the
    /// second.
    pub fn release_index(
        &mut self,
        d: Vec<Vec<(String, usize)>>,
        d_progress_l: usize,
        d_progress_f: usize,
        w: Vec<Vec<(String, usize)>>,
        w_progress_l: usize,
        w_progress_f: usize,
    )
        requires
            old(self).wf(),
            claims_within(d@, old(self).statuses_d()),
            claims_within(w@, old(self).statuses_w()),
        ensures
            final(self).wf(),
            final(self).files_d() == old(self).files_d(),
            final(self).files_w() == old(self).files_w(),
            releases(
                old(self).statuses_d(),
                d@,
                d_progress_l as int,
                d_progress_f as int,
                final(self).statuses_d(),
            ),
            releases(
                old(self).statuses_w(),
                w@,
                w_progress_l as int,
                w_progress_f as int,
                final(self).statuses_w(),
            ),
    {
        release_index_internal(&mut self.index_d, d, d_progress_l, d_progress_f);
        release_index_internal(&mut self.index_w, w, w_progress_l, w_progress_f);
    }

    /// Whether the claims `d` and `w` can be released: whether each is of a
    /// level and a place that this manager has.
    pub fn can_release(&self, d: &Vec<Vec<(String, usize)>>, w: &Vec<Vec<(String, usize)>>) -> (ok:
        bool)
        ensures
            ok == (claims_within(d@, self.statuses_d()) && claims_within(w@, self.statuses_w())),
    {
        within(d, &self.index_d) && within(w, &self.index_w)
    }
}

fn within(findex: &Vec<Vec<(String, usize)>>, index: &Vec<Vec<SstStatus>>) -> (ok: bool)
    ensures
        ok == claims_within(findex@, index@),
{
    if findex.len() > index.len() {
        return false;
    }
    let mut l: usize = 0;
    while l < findex.len()
        invariant
            l <= findex@.len() <= index@.len(),
            forall|a: int, j: int|
                0 <= a < l && 0 <= j < findex@[a]@.len() ==> (#[trigger] findex@[a]@[j]).1
                    < index@[a]@.len(),
        decreases findex@.len() - l,
    {
        let mut j: usize = 0;
        while j < findex[l].len()
            invariant
                l < findex@.len() <= index@.len(),
                j <= findex@[l as int]@.len(),
                forall|b: int|
                    0 <= b < j ==> (#[trigger] findex@[l as int]@[b]).1 < index@[l as int]@.len(),
            decreases findex@[l as int]@.len() - j,
        {
            if findex[l][j].1 >= index[l].len() {
                assert(!(findex@[l as int]@[j as int].1 < index@[l as int]@.len()));
                return false;
            }
            j += 1;
        }
        l += 1;
    }
    true
}

/// A new random name: a version-4 UUID of the uuid crate, written by its
/// `Display`. Nothing is claimed of it.
#[verifier::external_body]
fn fresh_id() -> String {
    uuid::Uuid::new_v4().to_string()
}

/// Files that carry their places have their places within their statuses.
pub proof fn lemma_indexed_covers(map: Seq<LevelFiles>, index: Seq<Vec<SstStatus>>)
    requires
        indexed(map, index),
    ensures
        index_covers(map, index),
{
    assert forall|l: int| 0 <= l < map.len() implies places_within(
        (#[trigger] map[l])@,
        index[l]@,
    ) by {
        assert(index[l]@.len() == map[l]@.len());
        assert forall|i: int| 0 <= i < map[l]@.len() implies (#[trigger] map[l]@[i]).info.idx
            < index[l]@.len() by {
            assert(map[l]@[i].info.idx == i);
        }
    }
}

/// Managers of table files, each under its name.
pub struct SegmentMapRouter {
    managers: Vec<(String, SegmentMapManager)>,
}

/// The place in `managers` of the manager that `id` names: the last one that
/// was registered under that name; `None` where there is none.
pub open spec fn place_of(managers: Seq<(String, SegmentMapManager)>, id: Seq<char>) -> Option<int>
    decreases managers.len(),
{
    if managers.len() == 0 {
        None
    } else if managers.last().0@ == id {
        Some(managers.len() - 1)
    } else {
        place_of(managers.drop_last(), id)
    }
}

/// A place that a name has is a place of a manager of that name.
pub proof fn lemma_place_of_bounds(managers: Seq<(String, SegmentMapManager)>, id: Seq<char>)
    ensures
        place_of(managers, id) matches Some(i) ==> 0 <= i < managers.len() && managers[i].0@ == id,
    decreases managers.len(),
{
    if managers.len() > 0 && managers.last().0@ != id {
        lemma_place_of_bounds(managers.drop_last(), id);
    }
}

/// Putting another manager in the place of one leaves every name at its
/// place.
pub proof fn lemma_place_of_update(
    managers: Seq<(String, SegmentMapManager)>,
    i: int,
    m: SegmentMapManager,
    id: Seq<char>,
)
    requires
        0 <= i < managers.len(),
    ensures
        place_of(managers.update(i, (managers[i].0, m)), id) == place_of(managers, id),
    decreases managers.len(),
{
    let after = managers.update(i, (managers[i].0, m));
    if i == managers.len() - 1 {
        assert(after.drop_last() =~= managers.drop_last());
    } else {
        assert(after.drop_last() =~= managers.drop_last().update(i, (managers[i].0, m)));
        lemma_place_of_update(managers.drop_last(), i, m, id);
    }
}

impl SegmentMapRouter {
    /// The managers and their names, in the order in which they were
    /// registered.
    pub closed spec fn registered(&self) -> Seq<(String, SegmentMapManager)> {
        self.managers@
    }

    /// The manager that `id` names.
    pub open spec fn lookup(&self, id: Seq<char>) -> Option<SegmentMapManager> {
        match place_of(self.registered(), id) {
            Some(i) => Some(self.registered()[i].1),
            None => None,
        }
    }

    /// Whether every manager is in order.
    pub open spec fn wf(&self) -> bool {
        forall|i: int| 0 <= i < self.registered().len() ==> (#[trigger] self.registered()[i]).1.wf()
    }

    /// A router without managers.
    pub fn new() -> (r: SegmentMapRouter)
        ensures
            r.wf(),
            r.registered() == Seq::<(String, SegmentMapManager)>::empty(),
    {
        SegmentMapRouter { managers: Vec::new() }
    }

    fn find(&self, id: &str) -> (place: Option<usize>)
        ensures
            match place {
                Some(i) => place_of(self.managers@, id@) == Some(i as int) && i < self.managers@.len(),
                None => place_of(self.managers@, id@) is None,
            },
    {
        let mut i: usize = self.managers.len();
        assert(self.managers@.take(i as int) =~= self.managers@);
        while i > 0
            invariant
                i <= self.managers@.len(),
                place_of(self.managers@, id@) == place_of(self.managers@.take(i as int), id@),
            decreases i,
        {
            proof {
                assert(self.managers@.take(i as int).drop_last() =~= self.managers@.take(i - 1));
                assert(self.managers@.take(i as int).last() == self.managers@[i - 1]);
            }
            if str_eq(self.managers[i - 1].0.as_str(), id) {
                return Some(i - 1);
            }
            i -= 1;
        }
        None
    }

    /// Registers a manager of the files `d` and `w` under a new random name,
    /// and returns the name. A manager that had that name before is
    /// replaced.
    pub fn register(&mut self, d: Vec<LevelFiles>, w: Vec<LevelFiles>) -> (id: String)
        requires
            old(self).wf(),
            total_files(d@) + total_files(w@) <= usize::MAX,
        ensures
            final(self).wf(),
            final(self).lookup(id@) matches Some(m) && m.wf() && same_files(d@, m.files_d())
                && same_files(w@, m.files_w()) && none_uploaded(m.statuses_d()) && none_uploaded(
                m.statuses_w(),
            ),
            forall|other: Seq<char>| other != id@ ==> final(self).lookup(other) == old(self).lookup(other),
    {
        let (id, manager) = SegmentMapManager::register(d, w);
        let ghost before = self.managers@;
        match self.find(id.as_str()) {
            Some(i) => {
                self.managers[i].1 = manager;
                proof {
                    assert(self.managers@ =~= before.update(i as int, (before[i as int].0, manager)));
                    assert forall|other: Seq<char>| true implies place_of(self.managers@, other)
                        == place_of(before, other) by {
                        lemma_place_of_update(before, i as int, manager, other);
                    }
                    lemma_place_of_bounds(before, id@);
                    assert(self.managers@[i as int].1 == manager);
                    assert forall|other: Seq<char>| other != id@ implies self.lookup(other) == old(
                        self,
                    ).lookup(other) by {
                        lemma_place_of_bounds(before, other);
                        assert(place_of(self.managers@, other) == place_of(before, other));
                        match place_of(before, other) {
                            Some(j) => {
                                assert(j != i);
                                assert(self.managers@[j] == before[j]);
                            },
                            None => {},
                        }
                    }
                    assert forall|j: int| 0 <= j < self.managers@.len() implies (
                    #[trigger] self.managers@[j]).1.wf() by {
                        if j != i {
                            assert(before[j].1.wf());
                        }
                    }
                }
            },
            None => {
                let name = id.clone();
                self.managers.push((name, manager));
                proof {
                    assert(self.managers@.drop_last() =~= before);
                    assert(self.managers@.last().0@ == id@);
                    assert forall|other: Seq<char>| other != id@ implies self.lookup(other) == old(
                        self,
                    ).lookup(other) by {
                        assert(place_of(self.managers@, other) == place_of(before, other));
                        match place_of(before, other) {
                            Some(i) => {
                                lemma_place_of_bounds(before, other);
                                assert(self.managers@[i] == before[i]);
                            },
                            None => {},
                        }
                    }
                    assert forall|j: int| 0 <= j < self.managers@.len() implies (
                    #[trigger] self.managers@[j]).1.wf() by {
                        if j < before.len() {
                            assert(before[j].1.wf());
                        }
                    }
                }
            },
        }
        id
    }

    /// The manager that `id` names.
    pub fn route(&self, id: &str) -> (m: Option<&SegmentMapManager>)
        ensures
            match m {
                Some(manager) => self.lookup(id@) == Some(*manager),
                None => self.lookup(id@) is None,
            },
    {
        match self.find(id) {
            Some(i) => Some(&self.managers[i].1),
            None => None,
        }
    }

    /// The manager that `id` names, for claiming and releasing files.
    pub fn route_mut(&mut self, id: &str) -> (m: Option<&mut SegmentMapManager>)
        ensures
            match m {
                Some(manager) => {
                    &&& place_of(old(self).registered(), id@) matches Some(i)
                    &&& *manager == old(self).registered()[i].1
                    &&& final(self).registered() == old(self).registered().update(
                        i,
                        (old(self).registered()[i].0, *final(manager)),
                    )
                },
                None => place_of(old(self).registered(), id@) is None && final(self).registered()
                    == old(self).registered(),
            },
    {
        match self.find(id) {
            Some(i) => {
                proof {
                    lemma_place_of_bounds(self.managers@, id@);
                }
                Some(&mut self.managers[i].1)
            },
            None => None,
        }
    }
}

} // verus!
